use whisper_daemon::injector::{Completed, InjectionError};
use whisper_daemon::message::TranscriptionMessage;
use whisper_daemon::queue::{JobQueue, JobStatus, QueueError};

fn msg(s: &str) -> TranscriptionMessage {
    TranscriptionMessage::new(s.to_string())
}

#[test]
fn enqueue_beyond_depth_is_rejected() {
    let mut q = JobQueue::new(2);
    assert_eq!(q.enqueue(msg("a")), Ok(0));
    assert_eq!(q.enqueue(msg("b")), Ok(1));
    assert_eq!(q.enqueue(msg("c")), Err(QueueError::QueueFull));
    assert_eq!(q.len(), 2);
    assert_eq!(q.max_waiting(), 2);
    let first = q.dispatch().unwrap();
    assert_eq!(first.request.text, "a");
    assert_eq!(q.enqueue(msg("d")), Ok(2));
}

#[test]
fn zero_depth_admits_nothing() {
    let mut q = JobQueue::new(0);
    assert_eq!(q.enqueue(msg("a")), Err(QueueError::QueueFull));
    assert!(q.dispatch().is_none());
}

#[test]
fn jobs_dispatch_in_enqueue_order_one_at_a_time() {
    let mut q = JobQueue::new(8);
    let a = q.enqueue(msg("first")).unwrap();
    let b = q.enqueue(msg("second")).unwrap();
    assert!(a < b);
    let ja = q.dispatch().unwrap();
    assert_eq!(ja.seq, a);
    assert_eq!(ja.request.text, "first");
    assert_eq!(q.current(), Some(a));
    assert!(q.dispatch().is_none());
    assert!(!q.finish(b, &Ok(Completed { skipped: vec![] })));
    assert!(q.finish(a, &Ok(Completed { skipped: vec![] })));
    assert_eq!(q.current(), None);
    let jb = q.dispatch().unwrap();
    assert_eq!(jb.seq, b);
    assert_eq!(jb.request.text, "second");
}

#[test]
fn outcomes_are_counted() {
    let mut q = JobQueue::new(4);
    q.enqueue(msg("x")).unwrap();
    q.enqueue(msg("y")).unwrap();
    let j = q.dispatch().unwrap();
    assert!(q.finish(j.seq, &Err(InjectionError::InjectionFailure { delivered_count: 3 })));
    let j = q.dispatch().unwrap();
    assert!(q.finish(j.seq, &Ok(Completed { skipped: vec![] })));
    assert_eq!(q.completed_count(), 1);
    assert_eq!(q.failed_count(), 1);
    assert!(q.dispatch().is_none());
    assert!(!q.finish(j.seq, &Ok(Completed { skipped: vec![] })));
}

#[test]
fn job_status_follows_its_life() {
    let mut q = JobQueue::new(4);
    let a = q.enqueue(msg("a")).unwrap();
    let b = q.enqueue(msg("b")).unwrap();
    assert_eq!(q.status(a), JobStatus::Queued);
    assert_eq!(q.status(b), JobStatus::Queued);
    assert_eq!(q.status(7), JobStatus::Unknown);
    let j = q.dispatch().unwrap();
    assert_eq!(q.status(a), JobStatus::Injecting);
    assert!(q.finish(j.seq, &Err(InjectionError::WorkerStuck { delivered_count: 0 })));
    assert_eq!(q.status(a), JobStatus::Finished);
    assert_eq!(q.status(b), JobStatus::Queued);
}
