//! The injection job queue: a bounded FIFO of jobs in front of a single
//! injection slot, so that jobs reach the keyboard one at a time, in the order
//! they were admitted.
use vstd::prelude::*;
use std::collections::VecDeque;
use crate::injector::{Completed, InjectionError};
use crate::message::TranscriptionMessage;

verus! {

/// One admitted transcription, with the sequence number it was given.
pub struct InjectionJob {
    pub seq: u64,
    pub request: TranscriptionMessage,
}

/// Why a transcription was not admitted.
#[derive(Clone, Copy, Debug, PartialEq, Eq, Structural)]
pub enum QueueError {
    /// As many jobs wait as the queue was configured to hold.
    QueueFull,
    /// Every sequence number has been handed out.
    SequenceExhausted,
}

/// Where a job stands.
#[derive(Clone, Copy, Debug, PartialEq, Eq, Structural)]
pub enum JobStatus {
    /// Waiting for the injection slot.
    Queued,
    /// Holding the injection slot.
    Injecting,
    /// Over, whether it completed or failed.
    Finished,
    /// No job was given this sequence number.
    Unknown,
}

/// A step in the history of the injection slot.
#[derive(Clone, Copy, Debug, PartialEq, Eq, Structural)]
pub enum Transition {
    /// The job with this sequence number took the slot.
    Dispatched(u64),
    /// The job with this sequence number left the slot.
    Finished(u64),
}

/// The history of a slot through which jobs `0, 1, 2, ...` passed one after
/// the other: entry `2k` dispatches job `k`, entry `2k + 1` finishes it.
pub open spec fn serial_history(log: Seq<Transition>) -> bool {
    forall|k: int|
        0 <= k < log.len() ==> #[trigger] log[k] == if k % 2 == 0 {
            Transition::Dispatched((k / 2) as u64)
        } else {
            Transition::Finished((k / 2) as u64)
        }
}

pub struct JobQueue {
    capacity: usize,
    next_seq: u64,
    waiting: VecDeque<InjectionJob>,
    in_flight: Option<u64>,
    completed: u64,
    failed: u64,
    log: Ghost<Seq<Transition>>,
}

impl JobQueue {
    /// How many jobs may wait at once.
    pub closed spec fn capacity(&self) -> nat {
        self.capacity as nat
    }

    /// The sequence number the next admitted job gets.
    pub closed spec fn next_seq(&self) -> nat {
        self.next_seq as nat
    }

    /// The waiting jobs, oldest first.
    pub closed spec fn waiting(&self) -> Seq<InjectionJob> {
        self.waiting@
    }

    /// The job that holds the injection slot, if any.
    pub closed spec fn in_flight(&self) -> Option<u64> {
        self.in_flight
    }

    /// How many jobs ended successfully.
    pub closed spec fn completed(&self) -> nat {
        self.completed as nat
    }

    /// How many jobs ended in failure.
    pub closed spec fn failed(&self) -> nat {
        self.failed as nat
    }

    /// Every dispatch and finish so far, in order.
    pub closed spec fn history(&self) -> Seq<Transition> {
        self.log@
    }

    /// How many jobs have been dispatched.
    pub open spec fn started(&self) -> nat {
        ((self.history().len() + 1) / 2) as nat
    }

    pub open spec fn wf(&self) -> bool {
        &&& self.waiting().len() <= self.capacity()
        &&& serial_history(self.history())
        &&& self.in_flight() == if self.history().len() % 2 == 1 {
            Some((self.history().len() / 2) as u64)
        } else {
            None
        }
        &&& forall|i: int|
            0 <= i < self.waiting().len() ==> (#[trigger] self.waiting()[i]).seq == self.started()
                + i
        &&& self.next_seq() == self.started() + self.waiting().len()
        &&& self.completed() + self.failed() == self.history().len() / 2
    }

    /// An empty queue that holds at most `capacity` waiting jobs.
    pub fn new(capacity: usize) -> (r: JobQueue)
        ensures
            r.wf(),
            r.capacity() == capacity,
            r.next_seq() == 0,
            r.waiting().len() == 0,
            r.in_flight() is None,
            r.completed() == 0,
            r.failed() == 0,
            r.history().len() == 0,
    {
        JobQueue {
            capacity,
            next_seq: 0,
            waiting: VecDeque::new(),
            in_flight: None,
            completed: 0,
            failed: 0,
            log: Ghost(Seq::empty()),
        }
    }

    /// The number of waiting jobs.
    pub fn len(&self) -> (r: usize)
        ensures
            r == self.waiting().len(),
    {
        self.waiting.len()
    }

    /// The configured bound on waiting jobs.
    pub fn max_waiting(&self) -> (r: usize)
        ensures
            r == self.capacity(),
    {
        self.capacity
    }

    /// The sequence number of the job in the injection slot, if any.
    pub fn current(&self) -> (r: Option<u64>)
        ensures
            r == self.in_flight(),
    {
        self.in_flight
    }

    /// How many jobs ended successfully.
    pub fn completed_count(&self) -> (r: u64)
        ensures
            r == self.completed(),
    {
        self.completed
    }

    /// How many jobs ended in failure.
    pub fn failed_count(&self) -> (r: u64)
        ensures
            r == self.failed(),
    {
        self.failed
    }

    /// Where the job with sequence number `seq` stands.
    pub fn status(&self, seq: u64) -> (r: JobStatus)
        requires
            self.wf(),
        ensures
            r == JobStatus::Queued <==> exists|i: int|
                0 <= i < self.waiting().len() && #[trigger] self.waiting()[i].seq == seq,
            r == JobStatus::Injecting <==> self.in_flight() == Some(seq),
            r == JobStatus::Finished <==> self.history().contains(Transition::Finished(seq)),
            r == JobStatus::Unknown <==> seq >= self.next_seq(),
    {
        let started = self.next_seq - self.waiting.len() as u64;
        let ghost h = self.log@;
        if seq >= self.next_seq {
            proof {
                if h.contains(Transition::Finished(seq)) {
                    let k = choose|k: int| 0 <= k < h.len() && h[k] == Transition::Finished(seq);
                    assert(h[k] == if k % 2 == 0 {
                        Transition::Dispatched((k / 2) as u64)
                    } else {
                        Transition::Finished((k / 2) as u64)
                    });
                }
                if exists|i: int| 0 <= i < self.waiting@.len() && #[trigger] self.waiting@[i].seq == seq {
                    let i = choose|i: int| 0 <= i < self.waiting@.len() && #[trigger] self.waiting@[i].seq == seq;
                    assert(self.waiting@[i].seq == self.started() + i);
                }
            }
            JobStatus::Unknown
        } else if seq >= started {
            proof {
                let i = seq - started;
                assert(self.waiting@[i].seq == self.started() + i);
                if h.contains(Transition::Finished(seq)) {
                    let k = choose|k: int| 0 <= k < h.len() && h[k] == Transition::Finished(seq);
                    assert(h[k] == if k % 2 == 0 {
                        Transition::Dispatched((k / 2) as u64)
                    } else {
                        Transition::Finished((k / 2) as u64)
                    });
                }
            }
            JobStatus::Queued
        } else if self.in_flight == Some(seq) {
            proof {
                if h.contains(Transition::Finished(seq)) {
                    let k = choose|k: int| 0 <= k < h.len() && h[k] == Transition::Finished(seq);
                    assert(h[k] == if k % 2 == 0 {
                        Transition::Dispatched((k / 2) as u64)
                    } else {
                        Transition::Finished((k / 2) as u64)
                    });
                }
                if exists|i: int| 0 <= i < self.waiting@.len() && #[trigger] self.waiting@[i].seq == seq {
                    let i = choose|i: int| 0 <= i < self.waiting@.len() && #[trigger] self.waiting@[i].seq == seq;
                    assert(self.waiting@[i].seq == self.started() + i);
                }
            }
            JobStatus::Injecting
        } else {
            proof {
                let k = 2 * (seq as int) + 1;
                assert(h[k] == if k % 2 == 0 {
                    Transition::Dispatched((k / 2) as u64)
                } else {
                    Transition::Finished((k / 2) as u64)
                });
                assert(h.contains(Transition::Finished(seq)));
                if exists|i: int| 0 <= i < self.waiting@.len() && #[trigger] self.waiting@[i].seq == seq {
                    let i = choose|i: int| 0 <= i < self.waiting@.len() && #[trigger] self.waiting@[i].seq == seq;
                    assert(self.waiting@[i].seq == self.started() + i);
                }
            }
            JobStatus::Finished
        }
    }

    /// Admits a transcription at the back of the queue and returns its
    /// sequence number, unless the queue is full. Never waits for injection.
    pub fn enqueue(&mut self, request: TranscriptionMessage) -> (r: Result<u64, QueueError>)
        requires
            old(self).wf(),
        ensures
            final(self).wf(),
            old(self).waiting().len() >= old(self).capacity() ==> r == Err::<u64, QueueError>(
                QueueError::QueueFull,
            ) && *final(self) == *old(self),
            old(self).waiting().len() < old(self).capacity() && old(self).next_seq() == u64::MAX
                ==> r == Err::<u64, QueueError>(QueueError::SequenceExhausted) && *final(self)
                == *old(self),
            old(self).waiting().len() < old(self).capacity() && old(self).next_seq() < u64::MAX
                ==> {
                &&& r == Ok::<u64, QueueError>(old(self).next_seq() as u64)
                &&& final(self).waiting() == old(self).waiting().push(
                    InjectionJob { seq: old(self).next_seq() as u64, request },
                )
                &&& final(self).next_seq() == old(self).next_seq() + 1
                &&& final(self).capacity() == old(self).capacity()
                &&& final(self).in_flight() == old(self).in_flight()
                &&& final(self).completed() == old(self).completed()
                &&& final(self).failed() == old(self).failed()
                &&& final(self).history() == old(self).history()
            },
    {
        if self.waiting.len() >= self.capacity {
            return Err(QueueError::QueueFull);
        }
        if self.next_seq == u64::MAX {
            return Err(QueueError::SequenceExhausted);
        }
        let seq = self.next_seq;
        self.waiting.push_back(InjectionJob { seq, request });
        self.next_seq = seq + 1;
        Ok(seq)
    }

    /// Hands the oldest waiting job to the injection slot, provided the slot
    /// is free; a job is never dispatched while another is in flight.
    pub fn dispatch(&mut self) -> (r: Option<InjectionJob>)
        requires
            old(self).wf(),
        ensures
            final(self).wf(),
            r is Some <==> old(self).in_flight() is None && old(self).waiting().len() > 0,
            r is None ==> *final(self) == *old(self),
            r is Some ==> {
                &&& r == Some(old(self).waiting()[0])
                &&& final(self).waiting() == old(self).waiting().drop_first()
                &&& final(self).in_flight() == Some(old(self).waiting()[0].seq)
                &&& final(self).history() == old(self).history().push(
                    Transition::Dispatched(old(self).waiting()[0].seq),
                )
                &&& final(self).next_seq() == old(self).next_seq()
                &&& final(self).capacity() == old(self).capacity()
                &&& final(self).completed() == old(self).completed()
                &&& final(self).failed() == old(self).failed()
            },
    {
        if self.in_flight.is_some() || self.waiting.len() == 0 {
            return None;
        }
        match self.waiting.pop_front() {
            None => None,
            Some(job) => {
                let ghost old_log = self.log@;
                self.in_flight = Some(job.seq);
                self.log = Ghost(self.log@.push(Transition::Dispatched(job.seq)));
                proof {
                    assert forall|k: int| 0 <= k < self.log@.len() implies #[trigger] self.log@[k]
                        == if k % 2 == 0 {
                        Transition::Dispatched((k / 2) as u64)
                    } else {
                        Transition::Finished((k / 2) as u64)
                    } by {
                        if k < old_log.len() {
                            assert(self.log@[k] == old_log[k]);
                        }
                    }
                    assert forall|i: int| 0 <= i < self.waiting@.len() implies (
                    #[trigger] self.waiting@[i]).seq == self.started() + i by {
                        assert(self.waiting@[i] == old(self).waiting@[i + 1]);
                    }
                }
                Some(job)
            },
        }
    }

    /// Takes the result of the job in the injection slot and frees the slot;
    /// the result is counted as a completion or a failure. Returns `false`,
    /// changing nothing, where `seq` is not the job in flight.
    pub fn finish(&mut self, seq: u64, outcome: &Result<Completed, InjectionError>) -> (r: bool)
        requires
            old(self).wf(),
        ensures
            final(self).wf(),
            r == (old(self).in_flight() == Some(seq)),
            !r ==> *final(self) == *old(self),
            r ==> {
                &&& final(self).in_flight() is None
                &&& final(self).history() == old(self).history().push(Transition::Finished(seq))
                &&& final(self).waiting() == old(self).waiting()
                &&& final(self).next_seq() == old(self).next_seq()
                &&& final(self).capacity() == old(self).capacity()
                &&& outcome is Ok ==> final(self).completed() == old(self).completed() + 1
                    && final(self).failed() == old(self).failed()
                &&& outcome is Err ==> final(self).failed() == old(self).failed() + 1
                    && final(self).completed() == old(self).completed()
            },
    {
        match self.in_flight {
            Some(s) => {
                if s != seq {
                    return false;
                }
            },
            None => {
                return false;
            },
        }
        let ghost old_log = self.log@;
        self.in_flight = None;
        self.log = Ghost(self.log@.push(Transition::Finished(seq)));
        match outcome {
            Ok(_) => {
                self.completed = self.completed + 1;
            },
            Err(_) => {
                self.failed = self.failed + 1;
            },
        }
        proof {
            assert forall|k: int| 0 <= k < self.log@.len() implies #[trigger] self.log@[k] == if k
                % 2 == 0 {
                Transition::Dispatched((k / 2) as u64)
            } else {
                Transition::Finished((k / 2) as u64)
            } by {
                if k < old_log.len() {
                    assert(self.log@[k] == old_log[k]);
                }
            }
        }
        true
    }
}

/// Jobs reach the injection slot in the order they were admitted, and one
/// at a time: wherever the history shows job `b` dispatched, every job `a`
/// admitted before it (a smaller sequence number) has already finished, so
/// none of `b`'s events can be submitted before `a`'s last one.
pub proof fn lemma_earlier_jobs_finish_first(q: JobQueue, a: u64, b: u64, j: int)
    requires
        q.wf(),
        a < b,
        0 <= j < q.history().len(),
        q.history()[j] == Transition::Dispatched(b),
    ensures
        exists|i: int| 0 <= i < j && q.history()[i] == Transition::Finished(a),
{
    let h = q.history();
    assert(h[j] == if j % 2 == 0 {
        Transition::Dispatched((j / 2) as u64)
    } else {
        Transition::Finished((j / 2) as u64)
    });
    assert(j % 2 == 0);
    assert(q.next_seq() <= u64::MAX);
    assert((j / 2) as u64 == j / 2);
    let i = 2 * (a as int) + 1;
    assert(h[i] == if i % 2 == 0 {
        Transition::Dispatched((i / 2) as u64)
    } else {
        Transition::Finished((i / 2) as u64)
    });
    assert(h[i] == Transition::Finished(a));
}

/// A job is never dispatched while another holds the slot: in the history,
/// each dispatch is followed by the finish of that same job before the next
/// dispatch.
pub proof fn lemma_slot_is_exclusive(q: JobQueue, j: int)
    requires
        q.wf(),
        0 <= j < q.history().len(),
        q.history()[j] is Dispatched,
    ensures
        j + 1 < q.history().len() ==> q.history()[j + 1] == Transition::Finished(
            q.history()[j]->Dispatched_0,
        ),
        j + 1 == q.history().len() ==> q.in_flight() == Some(q.history()[j]->Dispatched_0),
{
    let h = q.history();
    assert(h[j] == if j % 2 == 0 {
        Transition::Dispatched((j / 2) as u64)
    } else {
        Transition::Finished((j / 2) as u64)
    });
    if j + 1 < h.len() {
        assert(h[j + 1] == if (j + 1) % 2 == 0 {
            Transition::Dispatched(((j + 1) / 2) as u64)
        } else {
            Transition::Finished(((j + 1) / 2) as u64)
        });
    }
}

} // verus!
