//! Registry of the transcription jobs under way, for cooperative cancellation.
//!
//! Each job that runs is registered under its id and gets a cancel flag, which
//! it polls between chunks and windows. A registry is for one thread at a time;
//! threads that share one lock it.

use vstd::hash_map::StringHashMap;
use vstd::prelude::*;

verus! {

/// A cancel flag, by its number in the registry that gave it out.
#[derive(Clone, Copy, Debug, PartialEq, Eq, Structural)]
pub struct CancelFlag {
    /// The number.
    pub slot: usize,
}

/// What a registry holds.
pub struct JobsView {
    /// Of each flag ever given out, whether it is set.
    pub flags: Seq<bool>,
    /// The flag of each job under way.
    pub running: Map<Seq<char>, CancelFlag>,
}

impl JobsView {
    /// Each job under way has a flag that was given out, and no two jobs have
    /// the same.
    pub open spec fn valid(self) -> bool {
        &&& forall|id: Seq<char>| #[trigger]
            self.running.dom().contains(id) ==> self.running[id].slot < self.flags.len()
        &&& forall|id: Seq<char>, other: Seq<char>| #[trigger]
            self.running.dom().contains(id) && #[trigger] self.running.dom().contains(other)
                && self.running[id] == self.running[other] ==> id == other
    }

    /// Whether a flag is set.
    pub open spec fn is_set(self, flag: CancelFlag) -> bool {
        flag.slot < self.flags.len() && self.flags[flag.slot as int]
    }

    /// With a new flag, not set, for the job `id`.
    pub open spec fn registered(self, id: Seq<char>, flag: CancelFlag) -> JobsView {
        JobsView { flags: self.flags.push(false), running: self.running.insert(id, flag) }
    }

    /// With the flag of the job `id` set, if that job is under way.
    pub open spec fn cancelled(self, id: Seq<char>) -> JobsView {
        if self.running.dom().contains(id) {
            JobsView {
                flags: self.flags.update(self.running[id].slot as int, true),
                running: self.running,
            }
        } else {
            self
        }
    }

    /// With the job `id` no longer under way.
    pub open spec fn ended(self, id: Seq<char>) -> JobsView {
        JobsView { flags: self.flags, running: self.running.remove(id) }
    }
}

/// The registry.
pub struct MeetingJobs {
    flags: Vec<bool>,
    running: StringHashMap<CancelFlag>,
}

impl View for MeetingJobs {
    type V = JobsView;

    closed spec fn view(&self) -> JobsView {
        JobsView { flags: self.flags@, running: self.running@ }
    }
}

impl MeetingJobs {
    #[verifier::type_invariant]
    spec fn consistent(self) -> bool {
        self@.valid()
    }

    /// An empty registry.
    pub fn new() -> (r: MeetingJobs)
        ensures
            r@.flags == Seq::<bool>::empty(),
            r@.running == Map::<Seq<char>, CancelFlag>::empty(),
    {
        MeetingJobs { flags: Vec::new(), running: StringHashMap::new() }
    }

    /// Registers a job, and gives out its cancel flag. A job already under way
    /// by that id is no longer reached by it.
    pub fn register(&mut self, job_id: &str) -> (flag: CancelFlag)
        ensures
            old(self)@.valid(),
            final(self)@.valid(),
            flag.slot == old(self)@.flags.len(),
            final(self)@ == old(self)@.registered(job_id@, flag),
    {
        let mut taken: MeetingJobs = MeetingJobs::new();
        std::mem::swap(self, &mut taken);
        proof {
            use_type_invariant(&taken);
        }
        let ghost before = taken@;
        let MeetingJobs { mut flags, mut running } = taken;
        let flag: CancelFlag = CancelFlag { slot: flags.len() };
        flags.push(false);
        running.insert(job_id.to_owned(), flag);
        let ghost after = before.registered(job_id@, flag);
        proof {
            assert forall|id: Seq<char>| #[trigger]
                after.running.dom().contains(id) implies after.running[id].slot < after.flags.len() by {
                if id != job_id@ {
                    assert(before.running.dom().contains(id));
                }
            }
            assert forall|id: Seq<char>, other: Seq<char>| #[trigger]
                after.running.dom().contains(id) && #[trigger] after.running.dom().contains(other)
                    && after.running[id] == after.running[other] implies id == other by {
                if id != job_id@ {
                    assert(before.running.dom().contains(id));
                }
                if other != job_id@ {
                    assert(before.running.dom().contains(other));
                }
            }
            assert(after.valid());
        }
        *self = MeetingJobs { flags, running };
        flag
    }

    /// Sets the cancel flag of a job, and tells whether it is under way.
    pub fn cancel(&mut self, job_id: &str) -> (r: bool)
        ensures
            old(self)@.valid(),
            final(self)@.valid(),
            r == old(self)@.running.dom().contains(job_id@),
            final(self)@ == old(self)@.cancelled(job_id@),
    {
        let mut taken: MeetingJobs = MeetingJobs::new();
        std::mem::swap(self, &mut taken);
        proof {
            use_type_invariant(&taken);
        }
        let ghost before = taken@;
        let MeetingJobs { mut flags, running } = taken;
        let found: Option<CancelFlag> = match running.get(job_id) {
            Some(flag) => Some(*flag),
            None => None,
        };
        assert(running@ == before.running && flags@ == before.flags);
        let under_way: bool = match found {
            Some(flag) => {
                assert(before.running.dom().contains(job_id@));
                flags.set(flag.slot, true);
                true
            },
            None => false,
        };
        proof {
            let after = before.cancelled(job_id@);
            assert(after.flags == flags@ && after.running == running@);
            lemma_cancelled_is_valid(before, job_id@);
        }
        *self = MeetingJobs { flags, running };
        under_way
    }

    /// Forgets a job.
    pub fn done(&mut self, job_id: &str)
        ensures
            old(self)@.valid(),
            final(self)@.valid(),
            final(self)@ == old(self)@.ended(job_id@),
    {
        let mut taken: MeetingJobs = MeetingJobs::new();
        std::mem::swap(self, &mut taken);
        proof {
            use_type_invariant(&taken);
        }
        let ghost before = taken@;
        let MeetingJobs { flags, mut running } = taken;
        running.remove(job_id);
        proof {
            lemma_ended_is_valid(before, job_id@);
        }
        *self = MeetingJobs { flags, running };
    }

    /// Whether a cancel flag is set.
    pub fn is_cancelled(&self, flag: CancelFlag) -> (r: bool)
        ensures
            r == self@.is_set(flag),
    {
        flag.slot < self.flags.len() && self.flags[flag.slot]
    }
}

proof fn lemma_cancelled_is_valid(v: JobsView, id: Seq<char>)
    requires
        v.valid(),
    ensures
        v.cancelled(id).valid(),
{
    let after = v.cancelled(id);
    assert(after.running == v.running && after.flags.len() == v.flags.len());
    assert forall|x: Seq<char>| #[trigger] after.running.dom().contains(x) implies after.running[x].slot
        < after.flags.len() by {
        assert(v.running.dom().contains(x));
    }
    assert forall|x: Seq<char>, y: Seq<char>| #[trigger]
        after.running.dom().contains(x) && #[trigger] after.running.dom().contains(y)
            && after.running[x] == after.running[y] implies x == y by {
        assert(v.running.dom().contains(x) && v.running.dom().contains(y));
    }
}

proof fn lemma_ended_is_valid(v: JobsView, id: Seq<char>)
    requires
        v.valid(),
    ensures
        v.ended(id).valid(),
{
    let after = v.ended(id);
    assert forall|x: Seq<char>| #[trigger] after.running.dom().contains(x) implies after.running[x].slot
        < after.flags.len() by {
        assert(v.running.dom().contains(x));
    }
    assert forall|x: Seq<char>, y: Seq<char>| #[trigger]
        after.running.dom().contains(x) && #[trigger] after.running.dom().contains(y)
            && after.running[x] == after.running[y] implies x == y by {
        assert(v.running.dom().contains(x) && v.running.dom().contains(y));
    }
}

impl Default for MeetingJobs {
    fn default() -> (r: MeetingJobs)
        ensures
            r@.flags == Seq::<bool>::empty(),
            r@.running == Map::<Seq<char>, CancelFlag>::empty(),
    {
        MeetingJobs::new()
    }
}

/// A new job is not cancelled; cancelling it sets its flag and no other.
pub proof fn law_cancel_reaches_the_job(v: JobsView, id: Seq<char>, flag: CancelFlag, other: CancelFlag)
    requires
        v.valid(),
        flag.slot == v.flags.len(),
        other != flag,
    ensures
        !v.registered(id, flag).is_set(flag),
        v.registered(id, flag).cancelled(id).is_set(flag),
        v.registered(id, flag).cancelled(id).is_set(other) == v.is_set(other),
{
}

/// Registering a job anew leaves the flag of the job that had its id beyond
/// the reach of a cancel.
pub proof fn law_register_replaces(v: JobsView, id: Seq<char>, flag: CancelFlag)
    requires
        v.valid(),
        v.running.dom().contains(id),
        flag.slot == v.flags.len(),
    ensures
        v.registered(id, flag).cancelled(id).is_set(v.running[id]) == v.is_set(v.running[id]),
{
}

/// A job that is done can no longer be cancelled, and its flag stays as it was.
pub proof fn law_done_jobs_stay_as_they_are(v: JobsView, id: Seq<char>, flag: CancelFlag)
    ensures
        !v.ended(id).running.dom().contains(id),
        v.ended(id).cancelled(id) == v.ended(id),
        v.ended(id).is_set(flag) == v.is_set(flag),
{
}

/// Cancelling a job, or ending it, leaves other jobs as they are.
pub proof fn law_jobs_are_independent(v: JobsView, id: Seq<char>, other: Seq<char>)
    requires
        v.valid(),
        id != other,
        v.running.dom().contains(other),
    ensures
        v.cancelled(id).running.dom().contains(other),
        v.cancelled(id).is_set(v.running[other]) == v.is_set(v.running[other]),
        v.ended(id).running.dom().contains(other),
        v.ended(id).running[other] == v.running[other],
{
}

/// Cancelling twice is cancelling once.
pub proof fn law_cancel_is_idempotent(v: JobsView, id: Seq<char>)
    requires
        v.valid(),
    ensures
        v.cancelled(id).cancelled(id) == v.cancelled(id),
{
    assert(v.cancelled(id).cancelled(id).flags =~= v.cancelled(id).flags);
}

/// A flag that is set stays set, whatever is registered, cancelled or done.
pub proof fn law_flags_stay_set(
    v: JobsView,
    id: Seq<char>,
    flag: CancelFlag,
    given: CancelFlag,
)
    requires
        v.valid(),
        v.is_set(flag),
    ensures
        v.registered(id, given).is_set(flag),
        v.cancelled(id).is_set(flag),
        v.ended(id).is_set(flag),
{
}

/// Registering a job gives it a flag of its own that is not set, under its id,
/// and touches no other job and no other flag.
pub proof fn law_register_adds_one_job(
    v: JobsView,
    id: Seq<char>,
    flag: CancelFlag,
    other: Seq<char>,
    slot: int,
)
    ensures
        ({
            let after = v.registered(id, flag);
            &&& after.running.dom().contains(id) && after.running[id] == flag
            &&& other != id ==> (after.running.dom().contains(other) <==> v.running.dom().contains(
                other,
            ))
            &&& other != id && v.running.dom().contains(other) ==> after.running[other]
                == v.running[other]
            &&& after.flags.len() == v.flags.len() + 1
            &&& !after.flags[v.flags.len() as int]
            &&& 0 <= slot < v.flags.len() ==> after.flags[slot] == v.flags[slot]
        }),
{
}

/// Cancelling a job sets the flag of that job, if it is under way, and nothing
/// else; the jobs under way stay under way.
pub proof fn law_cancel_sets_one_flag(v: JobsView, id: Seq<char>, slot: int)
    requires
        v.valid(),
    ensures
        v.cancelled(id).running == v.running,
        v.cancelled(id).flags.len() == v.flags.len(),
        0 <= slot < v.flags.len() ==> (v.cancelled(id).flags[slot] <==> v.flags[slot] || (
        v.running.dom().contains(id) && v.running[id].slot == slot)),
{
}

/// Ending a job takes it, and no other, from the jobs under way; the flags stay.
pub proof fn law_done_removes_one_job(v: JobsView, id: Seq<char>, other: Seq<char>)
    ensures
        v.ended(id).flags == v.flags,
        v.ended(id).running.dom().contains(other) <==> other != id && v.running.dom().contains(
            other,
        ),
        other != id && v.running.dom().contains(other) ==> v.ended(id).running[other]
            == v.running[other],
{
}

/// A flag is set where its slot is one that was given out and holds `true`; in
/// a registry each job under way has a slot that was given out, and its own.
pub proof fn law_flags_are_slots(v: JobsView, flag: CancelFlag, id: Seq<char>, other: Seq<char>)
    ensures
        v.is_set(flag) <==> flag.slot < v.flags.len() && v.flags[flag.slot as int],
        v.valid() && v.running.dom().contains(id) ==> v.running[id].slot < v.flags.len(),
        v.valid() && v.running.dom().contains(id) && v.running.dom().contains(other) && id != other
            ==> v.running[id].slot != v.running[other].slot,
{
}

} // verus!
