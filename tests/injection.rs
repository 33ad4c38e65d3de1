use whisper_daemon::injector::{Action, InjectionError, Injection, SkippedChar, SubmitOutcome};
use whisper_daemon::mapper::{KeyAction, KeyEvent, NamedKey};

/// Runs an injection, answering the submission with index `fail_at` (if any)
/// with `failure`, and every other one with delivery. Returns the submitted
/// groups and the job's end.
fn run(
    text: &str,
    fail_at: Option<usize>,
    failure: SubmitOutcome,
) -> (Vec<Vec<KeyEvent>>, Result<Vec<SkippedChar>, InjectionError>) {
    let mut inj = Injection::new(&text.to_string());
    let mut groups = Vec::new();
    loop {
        match inj.next_action() {
            Action::Submit(g) => {
                let k = groups.len();
                groups.push(g);
                let outcome = if fail_at == Some(k) { failure } else { SubmitOutcome::Delivered };
                if let Some(e) = inj.report(outcome) {
                    return (groups, Err(e));
                }
            }
            Action::Finish(r) => return (groups, r.map(|c| c.skipped)),
        }
    }
}

#[test]
fn hello_is_typed_in_order_and_completes() {
    let (groups, end) = run("Hello", None, SubmitOutcome::Delivered);
    assert_eq!(
        groups,
        vec![
            vec![KeyEvent::Type('H')],
            vec![KeyEvent::Type('e')],
            vec![KeyEvent::Type('l')],
            vec![KeyEvent::Type('l')],
            vec![KeyEvent::Type('o')],
        ]
    );
    assert_eq!(end, Ok(vec![]));
}

#[test]
fn hello_failing_after_three_reports_three_delivered() {
    let (groups, end) = run("Hello", Some(3), SubmitOutcome::Rejected);
    assert_eq!(groups.len(), 4);
    assert_eq!(end, Err(InjectionError::InjectionFailure { delivered_count: 3 }));
}

#[test]
fn timeout_fails_job_as_worker_stuck() {
    let (groups, end) = run("Hello", Some(0), SubmitOutcome::TimedOut);
    assert_eq!(groups.len(), 1);
    assert_eq!(end, Err(InjectionError::WorkerStuck { delivered_count: 0 }));
}

#[test]
fn empty_text_yields_nothing_and_completes() {
    let (groups, end) = run("", None, SubmitOutcome::Delivered);
    assert!(groups.is_empty());
    assert_eq!(end, Ok(vec![]));
}

#[test]
fn supported_text_gives_one_group_per_char() {
    let (groups, end) = run("a\tb\n", None, SubmitOutcome::Delivered);
    assert_eq!(
        groups,
        vec![
            vec![KeyEvent::Type('a')],
            vec![
                KeyEvent::Key(NamedKey::Tab, KeyAction::Press),
                KeyEvent::Key(NamedKey::Tab, KeyAction::Release),
            ],
            vec![KeyEvent::Type('b')],
            vec![
                KeyEvent::Key(NamedKey::Return, KeyAction::Press),
                KeyEvent::Key(NamedKey::Return, KeyAction::Release),
            ],
        ]
    );
    assert_eq!(end, Ok(vec![]));
}

#[test]
fn unsupported_char_is_skipped_and_recorded() {
    let (with, end_with) = run("ab\u{E000}c", None, SubmitOutcome::Delivered);
    let (without, end_without) = run("abc", None, SubmitOutcome::Delivered);
    assert_eq!(with, without);
    assert_eq!(end_with, Ok(vec![SkippedChar { index: 2, ch: '\u{E000}' }]));
    assert_eq!(end_without, Ok(vec![]));
}

#[test]
fn skipped_chars_do_not_count_as_delivered() {
    let (groups, end) = run("\u{E000}xy", Some(1), SubmitOutcome::Rejected);
    assert_eq!(groups, vec![vec![KeyEvent::Type('x')], vec![KeyEvent::Type('y')]]);
    assert_eq!(end, Err(InjectionError::InjectionFailure { delivered_count: 1 }));
}

#[test]
fn delivered_count_follows_reports() {
    let mut inj = Injection::new(&"ab".to_string());
    assert_eq!(inj.delivered_count(), 0);
    assert!(matches!(inj.next_action(), Action::Submit(_)));
    assert_eq!(inj.report(SubmitOutcome::Delivered), None);
    assert_eq!(inj.delivered_count(), 1);
}
