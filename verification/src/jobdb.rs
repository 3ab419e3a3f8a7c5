//! The append-only job store: records, identifier assignment, and the
//! append operation over the store's text form.
use crate::codec::{
    decode_spec, decode_store, encode_jobs, encode_store, lemma_encode_then_decode, wf_models,
};
use vstd::prelude::*;

verus! {

/// The mathematical view of one job record.
#[verifier::ext_equal]
pub ghost struct JobModel {
    pub id: nat,
    pub command: Seq<char>,
    pub time: nat,
}

/// One persisted record of a completed command run.
#[derive(Debug, Clone, PartialEq, Eq)]
pub struct Job {
    /// Unique within a store; assigned as one more than the largest
    /// existing identifier.
    pub id: u64,
    /// The full command line, joined with single spaces.
    pub command: String,
    /// Whole seconds of wall-clock execution time.
    pub time: u64,
}

impl View for Job {
    type V = JobModel;

    open spec fn view(&self) -> JobModel {
        JobModel { id: self.id as nat, command: self.command@, time: self.time as nat }
    }
}

/// The ordered collection of job records held by one store.
pub struct Jobs {
    pub db: Vec<Job>,
}

impl View for Jobs {
    type V = Seq<JobModel>;

    open spec fn view(&self) -> Seq<JobModel> {
        self.db@.map_values(|j: Job| j@)
    }
}

impl Jobs {
    /// Appends a record, leaving every earlier record in place.
    pub fn push(&mut self, x: Job)
        ensures
            final(self)@ == old(self)@.push(x@),
    {
        self.db.push(x);
        proof {
            assert(self@ =~= old(self)@.push(self.db@.last()@));
        }
    }
}

/// The identifier the next appended record receives: one more than the
/// largest existing identifier, or zero for an empty store.
pub open spec fn next_id(js: Seq<JobModel>) -> nat
    decreases js.len(),
{
    if js.len() == 0 {
        0
    } else {
        let rest = next_id(js.drop_last());
        let cand = js.last().id + 1;
        if cand > rest {
            cand
        } else {
            rest
        }
    }
}

/// What one append does to a store's record sequence.
pub open spec fn append_spec(js: Seq<JobModel>, command: Seq<char>, time: nat) -> Seq<JobModel> {
    js.push(JobModel { id: next_id(js), command, time })
}

/// The freshly assigned identifier exceeds every existing one, and equals
/// some existing identifier plus one whenever the store is not empty —
/// whatever the gaps or the order of the existing identifiers.
pub proof fn lemma_next_id_max(js: Seq<JobModel>)
    ensures
        forall|k: int| 0 <= k < js.len() ==> (#[trigger] js[k]).id < next_id(js),
        js.len() > 0 ==> exists|k: int|
            0 <= k < js.len() && next_id(js) == (#[trigger] js[k]).id + 1,
        js.len() == 0 ==> next_id(js) == 0,
    decreases js.len(),
{
    if js.len() > 0 {
        let pre = js.drop_last();
        lemma_next_id_max(pre);
        assert(forall|k: int| 0 <= k < pre.len() ==> pre[k] == js[k]);
        if js.last().id + 1 > next_id(pre) {
            assert(js[js.len() - 1] == js.last());
            assert(next_id(js) == js.last().id + 1);
        } else {
            if pre.len() == 0 {
                assert(next_id(pre) == 0);
                assert(false);
            }
            let w = choose|k: int| 0 <= k < pre.len() && next_id(pre) == (#[trigger] pre[k]).id + 1;
            assert(js[w].id + 1 == next_id(js));
        }
    }
}

/// The record sequence that a series of appends builds from the empty store:
/// each input is a command line and a duration in whole seconds.
pub open spec fn append_all(inputs: Seq<(Seq<char>, nat)>) -> Seq<JobModel>
    decreases inputs.len(),
{
    if inputs.len() == 0 {
        Seq::empty()
    } else {
        append_spec(append_all(inputs.drop_last()), inputs.last().0, inputs.last().1)
    }
}

/// Appending any series of inputs to an initially empty store yields one
/// record per input, in input order, with identifiers that count up from
/// zero — so they are unique and strictly increasing.
pub proof fn lemma_appends_from_empty(inputs: Seq<(Seq<char>, nat)>)
    ensures
        append_all(inputs).len() == inputs.len(),
        forall|k: int|
            0 <= k < inputs.len() ==> {
                &&& (#[trigger] append_all(inputs)[k]).id == k
                &&& append_all(inputs)[k].command == inputs[k].0
                &&& append_all(inputs)[k].time == inputs[k].1
            },
    decreases inputs.len(),
{
    if inputs.len() > 0 {
        let pre = inputs.drop_last();
        lemma_appends_from_empty(pre);
        let built = append_all(pre);
        lemma_next_id_counting(built);
        assert(forall|k: int| 0 <= k < pre.len() ==> pre[k] == inputs[k]);
        assert(append_all(inputs) == built.push(
            JobModel {
                id: next_id(built),
                command: inputs.last().0,
                time: inputs.last().1,
            },
        ));
        assert(forall|k: int|
            0 <= k < built.len() ==> #[trigger] append_all(inputs)[k] == built[k]);
        assert(append_all(inputs)[inputs.len() - 1].id == inputs.len() - 1);
    }
}

/// In a store whose identifiers count up from zero, the next identifier is
/// the store's length.
proof fn lemma_next_id_counting(js: Seq<JobModel>)
    requires
        forall|k: int| 0 <= k < js.len() ==> (#[trigger] js[k]).id == k,
    ensures
        next_id(js) == js.len(),
    decreases js.len(),
{
    if js.len() > 0 {
        let pre = js.drop_last();
        assert(forall|k: int| 0 <= k < pre.len() ==> (#[trigger] pre[k]).id == k);
        lemma_next_id_counting(pre);
        assert(js.last().id == js.len() - 1);
    }
}

/// Errors of the store's append operation.
#[derive(Clone, Copy, Debug, PartialEq, Eq, Structural)]
pub enum StoreError {
    /// The existing store text is present, non-empty and not a store.
    Corrupt,
    /// The largest existing identifier cannot be incremented.
    IdOverflow,
}

/// Computes the next identifier of a store, or reports that it cannot be
/// represented.
fn compute_next_id(jobs: &Jobs) -> (r: Result<u64, StoreError>)
    ensures
        match r {
            Ok(v) => v as nat == next_id(jobs@),
            Err(e) => e == StoreError::IdOverflow && next_id(jobs@) > u64::MAX,
        },
{
    let mut next: u64 = 0;
    let mut k: usize = 0;
    assert(jobs@.subrange(0, 0) =~= Seq::<JobModel>::empty());
    while k < jobs.db.len()
        invariant
            k <= jobs.db.len(),
            jobs@.len() == jobs.db.len(),
            next as nat == next_id(jobs@.subrange(0, k as int)),
        decreases jobs.db.len() - k,
    {
        let id = jobs.db[k].id;
        proof {
            assert(jobs@.subrange(0, k as int + 1).drop_last() =~= jobs@.subrange(0, k as int));
            assert(jobs@.subrange(0, k as int + 1).last() == jobs@[k as int]);
            assert(jobs@[k as int] == jobs.db[k as int]@);
        }
        if id >= next {
            if id == u64::MAX {
                proof {
                    lemma_next_id_max(jobs@);
                    assert(jobs@[k as int].id < next_id(jobs@));
                }
                return Err(StoreError::IdOverflow);
            }
            next = id + 1;
        }
        k = k + 1;
    }
    assert(jobs@.subrange(0, jobs@.len() as int) =~= jobs@);
    Ok(next)
}

/// Builds the new store text from the old one and the record to add: decodes
/// the old text, assigns `job` the next identifier, appends it, and encodes
/// the grown sequence. The old records stay unchanged and in order; nothing
/// is produced when the old text is not a store.
pub fn update_jobs_str(job: Job, db_raw: String) -> (r: Result<String, StoreError>)
    ensures
        match r {
            Ok(out) => {
                &&& decode_spec(db_raw@) matches Some(js) && out@ == encode_jobs(
                    append_spec(js, job@.command, job@.time),
                )
                &&& decode_spec(db_raw@) matches Some(js) && decode_spec(out@) == Some(
                    append_spec(js, job@.command, job@.time),
                )
                &&& decode_spec(db_raw@) matches Some(js) && next_id(js) <= u64::MAX
            },
            Err(StoreError::Corrupt) => decode_spec(db_raw@) is None,
            Err(StoreError::IdOverflow) => decode_spec(db_raw@) matches Some(js) && next_id(js)
                > u64::MAX,
        },
{
    let decoded = decode_store(db_raw.as_str());
    let mut jobs = match decoded {
        Some(jobs) => jobs,
        None => {
            return Err(StoreError::Corrupt);
        },
    };
    let next = match compute_next_id(&jobs) {
        Ok(v) => v,
        Err(e) => {
            return Err(e);
        },
    };
    let fresh = Job { id: next, command: job.command, time: job.time };
    assert(fresh@ == JobModel { id: next as nat, command: job@.command, time: job@.time });
    jobs.push(fresh);
    proof {
        assert(wf_models(jobs@)) by {
            assert(forall|k: int|
                0 <= k < jobs@.len() ==> (#[trigger] jobs@[k]) == jobs.db@.map_values(
                    |j: Job| j@,
                )[k]);
        }
        lemma_encode_then_decode(jobs@);
    }
    Ok(encode_store(&jobs))
}

/// A handle on one store: the path of its backing file. The store itself is
/// re-read from the text on every append.
pub struct JobDB {
    /// Where the caller keeps the store text.
    pub file: String,
}

impl JobDB {
    /// A handle for the store kept at `file`.
    pub fn new(file: String) -> (r: Self)
        ensures
            r.file@ == file@,
    {
        JobDB { file }
    }

    /// One append: given the backing file's current text (empty when the
    /// file is missing), returns the text to write back. The new record
    /// holds the command line, the run's whole seconds, and the next free
    /// identifier.
    pub fn add_job(&self, command: &str, duration_secs: u64, db_raw: String) -> (r: Result<
        String,
        StoreError,
    >)
        ensures
            match r {
                Ok(out) => {
                    &&& decode_spec(db_raw@) matches Some(js) && out@ == encode_jobs(
                        append_spec(js, command@, duration_secs as nat),
                    )
                    &&& decode_spec(db_raw@) matches Some(js) && decode_spec(out@) == Some(
                        append_spec(js, command@, duration_secs as nat),
                    )
                    &&& decode_spec(db_raw@) matches Some(js) && next_id(js) <= u64::MAX
                },
                Err(StoreError::Corrupt) => decode_spec(db_raw@) is None,
                Err(StoreError::IdOverflow) => decode_spec(db_raw@) matches Some(js) && next_id(
                    js,
                ) > u64::MAX,
            },
    {
        let job = Job { id: 0, command: command.to_owned(), time: duration_secs };
        update_jobs_str(job, db_raw)
    }
}

} // verus!
