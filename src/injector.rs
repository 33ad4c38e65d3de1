//! The keystroke injector: walks one job's text, maps each character and hands
//! the resulting event groups out for submission, one at a time and in order.
//!
//! The submission itself is performed by the caller, which reports back how it
//! went; the injector decides what comes next.
use vstd::prelude::*;
use crate::mapper::{is_supported, key_events, map_char, KeyEvent, Mapping};

verus! {

/// A character that was left out because it has no key-event mapping.
#[derive(Clone, Copy, Debug, PartialEq, Eq, Structural)]
pub struct SkippedChar {
    /// Position of the character in the job's text, counted in characters.
    pub index: usize,
    pub ch: char,
}

/// The result of a job whose every event group was submitted.
#[derive(Debug)]
pub struct Completed {
    /// The unsupported characters, in text order.
    pub skipped: Vec<SkippedChar>,
}

/// Why a job stopped before its whole text was submitted.
#[derive(Clone, Copy, Debug, PartialEq, Eq, Structural)]
pub enum InjectionError {
    /// The OS rejected a submission; that many characters had been delivered.
    InjectionFailure { delivered_count: usize },
    /// A submission did not finish in time; that many characters had been delivered.
    WorkerStuck { delivered_count: usize },
}

/// How the caller's submission of one event group went.
#[derive(Clone, Copy, Debug, PartialEq, Eq, Structural)]
pub enum SubmitOutcome {
    Delivered,
    Rejected,
    TimedOut,
}

/// What the injector asks of its caller next.
#[derive(Debug)]
pub enum Action {
    /// Submit these events to the OS, then call `report`.
    Submit(Vec<KeyEvent>),
    /// The job is over, with this result.
    Finish(Result<Completed, InjectionError>),
}

/// The event groups that a text yields: one per supported character, in order.
pub open spec fn plan(text: Seq<char>) -> Seq<Seq<KeyEvent>>
    decreases text.len(),
{
    if text.len() == 0 {
        Seq::empty()
    } else {
        let rest = plan(text.drop_last());
        if is_supported(text.last()) {
            rest.push(key_events(text.last()))
        } else {
            rest
        }
    }
}

/// The unsupported characters of a text, with their positions, in order.
pub open spec fn skips(text: Seq<char>) -> Seq<SkippedChar>
    decreases text.len(),
{
    if text.len() == 0 {
        Seq::empty()
    } else {
        let rest = skips(text.drop_last());
        if is_supported(text.last()) {
            rest
        } else {
            rest.push(SkippedChar { index: (text.len() - 1) as usize, ch: text.last() })
        }
    }
}

/// The groups of a prefix are a prefix of the groups of a longer prefix.
proof fn lemma_plan_prefix(t: Seq<char>, i: int, j: int)
    requires
        0 <= i <= j <= t.len(),
    ensures
        plan(t.take(i)).len() <= plan(t.take(j)).len(),
        plan(t.take(j)).take(plan(t.take(i)).len() as int) == plan(t.take(i)),
    decreases j - i,
{
    if i < j {
        lemma_plan_prefix(t, i, j - 1);
        assert(t.take(j).drop_last() =~= t.take(j - 1));
        assert(t.take(j).last() == t[j - 1]);
        let a = plan(t.take(i));
        let b = plan(t.take(j - 1));
        let c = plan(t.take(j));
        if is_supported(t[j - 1]) {
            assert(c.take(a.len() as int) =~= b.take(a.len() as int));
        }
    } else {
        assert(plan(t.take(j)).take(plan(t.take(i)).len() as int) =~= plan(t.take(i)));
    }
}

/// A text yields at most one group per character.
proof fn lemma_plan_len(t: Seq<char>)
    ensures
        plan(t).len() <= t.len(),
    decreases t.len(),
{
    if t.len() > 0 {
        lemma_plan_len(t.drop_last());
    }
}

/// The injection of one job's text.
pub struct Injection {
    text: Vec<char>,
    pos: usize,
    delivered: usize,
    skipped: Vec<SkippedChar>,
    awaiting: bool,
    finished: bool,
}

impl Injection {
    /// The job's text.
    pub closed spec fn text(&self) -> Seq<char> {
        self.text@
    }

    /// How many event groups have been delivered.
    pub closed spec fn delivered(&self) -> nat {
        self.delivered as nat
    }

    /// Whether a submitted group waits for its report.
    pub closed spec fn is_awaiting(&self) -> bool {
        self.awaiting
    }

    /// Whether the job is over.
    pub closed spec fn is_finished(&self) -> bool {
        self.finished
    }

    pub closed spec fn wf(&self) -> bool {
        &&& self.pos <= self.text@.len() <= usize::MAX
        &&& self.delivered <= self.pos
        &&& self.delivered == plan(self.text@.take(self.pos as int)).len()
        &&& self.skipped@ == skips(self.text@.take(self.pos as int))
        &&& self.awaiting ==> !self.finished && self.pos < self.text@.len() && is_supported(
            self.text@[self.pos as int],
        )
    }

    /// Starts the injection of a text; nothing has been submitted yet.
    pub fn new(text: &String) -> (r: Injection)
        ensures
            r.wf(),
            r.text() == text@,
            r.delivered() == 0,
            !r.is_awaiting(),
            !r.is_finished(),
    {
        let s = text.as_str();
        let n = s.unicode_len();
        let mut chars: Vec<char> = Vec::new();
        let mut i: usize = 0;
        while i < n
            invariant
                n == s@.len(),
                i <= n,
                chars@ == s@.take(i as int),
            decreases n - i,
        {
            chars.push(s.get_char(i));
            i = i + 1;
            assert(chars@ =~= s@.take(i as int));
        }
        assert(chars@ =~= s@);
        assert(chars@.take(0) =~= Seq::<char>::empty());
        Injection {
            text: chars,
            pos: 0,
            delivered: 0,
            skipped: Vec::new(),
            awaiting: false,
            finished: false,
        }
    }

    /// How many characters have been delivered so far.
    pub fn delivered_count(&self) -> (r: usize)
        ensures
            r == self.delivered(),
    {
        self.delivered
    }

    /// Moves past unsupported characters, recording each, and then either asks
    /// for the next character's events to be submitted or finishes the job.
    pub fn next_action(&mut self) -> (a: Action)
        requires
            old(self).wf(),
            !old(self).is_awaiting(),
            !old(self).is_finished(),
        ensures
            final(self).wf(),
            final(self).text() == old(self).text(),
            final(self).delivered() == old(self).delivered(),
            match a {
                Action::Submit(g) => {
                    &&& old(self).delivered() < plan(old(self).text()).len()
                    &&& g@ == plan(old(self).text())[old(self).delivered() as int]
                    &&& final(self).is_awaiting()
                    &&& !final(self).is_finished()
                },
                Action::Finish(r) => {
                    &&& old(self).delivered() == plan(old(self).text()).len()
                    &&& r is Ok
                    &&& r->Ok_0.skipped@ == skips(old(self).text())
                    &&& !final(self).is_awaiting()
                    &&& final(self).is_finished()
                },
            },
    {
        let ghost t = self.text@;
        loop
            invariant
                self.wf(),
                self.text@ == t,
                t == old(self).text@,
                self.delivered == old(self).delivered,
                !self.awaiting,
                !self.finished,
            decreases self.text@.len() - self.pos,
        {
            if self.pos == self.text.len() {
                proof {
                    assert(t.take(t.len() as int) =~= t);
                }
                self.finished = true;
                return Action::Finish(Ok(Completed { skipped: self.skipped.clone() }));
            }
            let c = self.text[self.pos];
            proof {
                assert(t.take(self.pos + 1).drop_last() =~= t.take(self.pos as int));
                assert(t.take(self.pos + 1).last() == c);
            }
            match map_char(c) {
                Mapping::Unsupported => {
                    self.skipped.push(SkippedChar { index: self.pos, ch: c });
                    self.pos = self.pos + 1;
                },
                Mapping::Events(g) => {
                    proof {
                        lemma_plan_prefix(t, self.pos + 1, t.len() as int);
                        lemma_plan_len(t.take(self.pos + 1));
                        assert(t.take(t.len() as int) =~= t);
                        let p = plan(t.take(self.pos + 1));
                        assert(p.len() == self.delivered + 1);
                        assert(plan(t).take(p.len() as int)[self.delivered as int] == p[
                            self.delivered as int]);
                    }
                    self.awaiting = true;
                    return Action::Submit(g);
                },
            }
        }
    }

    /// Takes the report of the last submission: on delivery the job moves to
    /// the next character, otherwise it fails with the count delivered so far.
    pub fn report(&mut self, outcome: SubmitOutcome) -> (r: Option<InjectionError>)
        requires
            old(self).wf(),
            old(self).is_awaiting(),
        ensures
            final(self).wf(),
            final(self).text() == old(self).text(),
            !final(self).is_awaiting(),
            outcome == SubmitOutcome::Delivered ==> {
                &&& r is None
                &&& final(self).delivered() == old(self).delivered() + 1
                &&& !final(self).is_finished()
            },
            outcome == SubmitOutcome::Rejected ==> {
                &&& r == Some(
                    InjectionError::InjectionFailure { delivered_count: old(self).delivered() as usize },
                )
                &&& final(self).delivered() == old(self).delivered()
                &&& final(self).is_finished()
            },
            outcome == SubmitOutcome::TimedOut ==> {
                &&& r == Some(
                    InjectionError::WorkerStuck { delivered_count: old(self).delivered() as usize },
                )
                &&& final(self).delivered() == old(self).delivered()
                &&& final(self).is_finished()
            },
    {
        self.awaiting = false;
        match outcome {
            SubmitOutcome::Delivered => {
                let ghost t = self.text@;
                proof {
                    assert(t.take(self.pos + 1).drop_last() =~= t.take(self.pos as int));
                    assert(t.take(self.pos + 1).last() == t[self.pos as int]);
                    lemma_plan_len(t.take(self.pos + 1));
                }
                self.pos = self.pos + 1;
                self.delivered = self.delivered + 1;
                None
            },
            SubmitOutcome::Rejected => {
                self.finished = true;
                Some(InjectionError::InjectionFailure { delivered_count: self.delivered })
            },
            SubmitOutcome::TimedOut => {
                self.finished = true;
                Some(InjectionError::WorkerStuck { delivered_count: self.delivered })
            },
        }
    }
}

} // verus!

verus! {

/// Every character of the text is supported.
pub open spec fn all_supported(s: Seq<char>) -> bool {
    forall|i: int| 0 <= i < s.len() ==> is_supported(#[trigger] s[i])
}

proof fn lemma_skips_extend_supported(x: Seq<char>, b: Seq<char>)
    requires
        all_supported(b),
    ensures
        skips(x + b) == skips(x),
    decreases b.len(),
{
    if b.len() > 0 {
        lemma_skips_extend_supported(x, b.drop_last());
        assert((x + b).drop_last() =~= x + b.drop_last());
        assert((x + b).last() == b[b.len() - 1]);
    } else {
        assert(x + b =~= x);
    }
}

proof fn lemma_plan_extend(x: Seq<char>, y: Seq<char>, b: Seq<char>)
    requires
        plan(x) == plan(y),
    ensures
        plan(x + b) == plan(y + b),
    decreases b.len(),
{
    if b.len() > 0 {
        lemma_plan_extend(x, y, b.drop_last());
        assert((x + b).drop_last() =~= x + b.drop_last());
        assert((y + b).drop_last() =~= y + b.drop_last());
        assert((x + b).last() == b.last());
        assert((y + b).last() == b.last());
    } else {
        assert(x + b =~= x);
        assert(y + b =~= y);
    }
}

/// A text of supported characters yields exactly one event group per
/// character, each the character's own events, in the text's order, and
/// records no skipped character.
pub proof fn lemma_supported_text_one_group_per_char(s: Seq<char>)
    requires
        all_supported(s),
    ensures
        plan(s).len() == s.len(),
        forall|i: int| 0 <= i < s.len() ==> #[trigger] plan(s)[i] == key_events(s[i]),
        skips(s) == Seq::<SkippedChar>::empty(),
    decreases s.len(),
{
    if s.len() > 0 {
        let p = s.drop_last();
        assert forall|i: int| 0 <= i < p.len() implies is_supported(#[trigger] p[i]) by {
            assert(p[i] == s[i]);
        }
        lemma_supported_text_one_group_per_char(p);
        assert(is_supported(s[s.len() - 1]));
        assert forall|i: int| 0 <= i < s.len() implies #[trigger] plan(s)[i] == key_events(s[i]) by {
            if i < p.len() {
                assert(p[i] == s[i]);
            }
        }
    }
}

/// The empty text yields no event group and records no skipped character.
pub proof fn lemma_empty_text_yields_nothing(s: Seq<char>)
    requires
        s.len() == 0,
    ensures
        plan(s) == Seq::<Seq<KeyEvent>>::empty(),
        skips(s) == Seq::<SkippedChar>::empty(),
{
}

/// An unsupported character contributes no event: the text yields the same
/// groups as the text without it. Where it is the only unsupported
/// character, it is the one skip recorded, at its position.
pub proof fn lemma_unsupported_char_is_skipped(a: Seq<char>, c: char, b: Seq<char>)
    requires
        !is_supported(c),
        a.len() + 1 + b.len() <= usize::MAX,
    ensures
        plan(a + seq![c] + b) == plan(a + b),
        all_supported(a) && all_supported(b) ==> skips(a + seq![c] + b) == seq![
            SkippedChar { index: a.len() as usize, ch: c },
        ],
{
    let ac = a + seq![c];
    assert(ac.drop_last() =~= a);
    assert(ac.last() == c);
    lemma_plan_extend(ac, a, b);
    if all_supported(a) && all_supported(b) {
        lemma_supported_text_one_group_per_char(a);
        lemma_skips_extend_supported(ac, b);
        assert(skips(ac) =~= seq![SkippedChar { index: a.len() as usize, ch: c }]);
    }
}

} // verus!
