//! The removal of one application as a state machine: the caller carries out
//! each action (a look at the process table, a request to quit, a deletion)
//! and reports what happened; the machine decides what comes next and keeps
//! one outcome per path, in the order of the attempts.

use vstd::prelude::*;
use crate::text::{lemma_texts_push, texts};

verus! {

/// What became of the deletion of one path.
#[derive(Debug, PartialEq, Eq)]
pub enum RemovalResult {
    Success,
    Failure(String),
}

/// One attempted path and what became of it.
#[derive(Debug, PartialEq, Eq)]
pub struct RemovalOutcome {
    pub path: String,
    pub result: RemovalResult,
}

/// Where a removal stands.
#[derive(Clone, Copy, Debug, PartialEq, Eq)]
pub enum Phase {
    Idle,
    Checking,
    Terminating,
    Deleting,
    Completed,
}

/// What the caller reports to the machine.
#[derive(Debug, PartialEq, Eq)]
pub enum Event {
    /// The removal is to begin.
    Start,
    /// Whether the application was found running.
    Liveness(bool),
    /// The wait after the request to quit is over.
    GraceElapsed,
    /// The deletion that was asked for last ended in this way.
    Deleted(RemovalResult),
}

/// What the machine asks the caller to do next.
#[derive(Debug, PartialEq, Eq)]
pub enum Action {
    /// Look for a process whose command line holds `pattern`.
    CheckRunning { pattern: String },
    /// Send `script` to the scripting facility, then wait `grace_seconds`.
    RequestQuit { script: String, grace_seconds: u64 },
    /// Delete `path`, a file or a whole directory.
    Delete { path: String },
    /// Nothing is left to do.
    Finish,
    /// The event does not belong to the present phase; nothing has changed.
    Rejected,
}

/// A result as a mathematical value.
pub enum ResultView {
    Success,
    Failure(Seq<char>),
}

/// An outcome as a mathematical value.
pub struct OutcomeView {
    pub path: Seq<char>,
    pub result: ResultView,
}

/// An event as a mathematical value.
pub enum EventView {
    Start,
    Liveness(bool),
    GraceElapsed,
    Deleted(ResultView),
}

/// An action as a mathematical value.
pub enum ActionView {
    CheckRunning { pattern: Seq<char> },
    RequestQuit { script: Seq<char>, grace_seconds: u64 },
    Delete { path: Seq<char> },
    Finish,
    Rejected,
}

/// The state of a removal as a mathematical value.
pub struct RemovalView {
    pub phase: Phase,
    pub app_name: Seq<char>,
    /// The bundle first, then the residual paths in the order given.
    pub targets: Seq<Seq<char>>,
    pub outcomes: Seq<OutcomeView>,
}

/// A state after a step, and the action that the step asks for.
pub struct Step {
    pub next: RemovalView,
    pub action: ActionView,
}

impl View for RemovalResult {
    type V = ResultView;

    open spec fn view(&self) -> ResultView {
        match self {
            RemovalResult::Success => ResultView::Success,
            RemovalResult::Failure(message) => ResultView::Failure(message@),
        }
    }
}

impl View for RemovalOutcome {
    type V = OutcomeView;

    open spec fn view(&self) -> OutcomeView {
        OutcomeView { path: self.path@, result: self.result@ }
    }
}

impl View for Event {
    type V = EventView;

    open spec fn view(&self) -> EventView {
        match self {
            Event::Start => EventView::Start,
            Event::Liveness(running) => EventView::Liveness(*running),
            Event::GraceElapsed => EventView::GraceElapsed,
            Event::Deleted(result) => EventView::Deleted(result@),
        }
    }
}

impl View for Action {
    type V = ActionView;

    open spec fn view(&self) -> ActionView {
        match self {
            Action::CheckRunning { pattern } => ActionView::CheckRunning { pattern: pattern@ },
            Action::RequestQuit { script, grace_seconds } => ActionView::RequestQuit {
                script: script@,
                grace_seconds: *grace_seconds,
            },
            Action::Delete { path } => ActionView::Delete { path: path@ },
            Action::Finish => ActionView::Finish,
            Action::Rejected => ActionView::Rejected,
        }
    }
}

/// The outcomes that a sequence of records holds.
pub open spec fn outcome_views(v: Seq<RemovalOutcome>) -> Seq<OutcomeView> {
    Seq::new(v.len(), |i: int| v[i]@)
}

/// The seconds to wait after a request to quit.
pub const GRACE_SECONDS: u64 = 2;

/// The text that a running application's command line holds: the name of
/// its bundle directory.
pub open spec fn process_pattern(app_name: Seq<char>) -> Seq<char> {
    app_name + ".app"@
}

/// The script that asks an application to quit.
pub open spec fn quit_script(app_name: Seq<char>) -> Seq<char> {
    "tell application \""@ + app_name + "\" to quit"@
}

/// The outcomes of a whole sequence of results, one per path.
pub open spec fn outcomes_of(paths: Seq<Seq<char>>, results: Seq<ResultView>) -> Seq<OutcomeView>
    recommends
        paths.len() == results.len(),
{
    Seq::new(results.len(), |i: int| OutcomeView { path: paths[i], result: results[i] })
}

impl RemovalView {
    /// The state before anything has happened.
    pub open spec fn initial(
        app_name: Seq<char>,
        bundle_path: Seq<char>,
        residual_paths: Seq<Seq<char>>,
    ) -> RemovalView {
        RemovalView {
            phase: Phase::Idle,
            app_name,
            targets: seq![bundle_path] + residual_paths,
            outcomes: Seq::empty(),
        }
    }

    /// The states that a removal can be in: one outcome for each path tried
    /// so far, in the order of the targets, none before the deleting begins
    /// and all of them once it is over.
    pub open spec fn wf(self) -> bool {
        &&& self.targets.len() >= 1
        &&& self.outcomes.len() <= self.targets.len()
        &&& forall|i: int|
            0 <= i < self.outcomes.len() ==> (#[trigger] self.outcomes[i]).path == self.targets[i]
        &&& match self.phase {
            Phase::Idle | Phase::Checking | Phase::Terminating => self.outcomes.len() == 0,
            Phase::Deleting => self.outcomes.len() < self.targets.len(),
            Phase::Completed => self.outcomes.len() == self.targets.len(),
        }
    }

    /// The step into the deleting: the first target is the bundle.
    pub open spec fn begin_deleting(self) -> Step {
        Step {
            next: RemovalView { phase: Phase::Deleting, ..self },
            action: ActionView::Delete { path: self.targets[0] },
        }
    }

    /// The step that records the result of the deletion asked for last, and
    /// goes on to the next target whatever that result was.
    pub open spec fn record(self, result: ResultView) -> Step {
        let done = self.outcomes.len() as int;
        let outcomes = self.outcomes.push(OutcomeView { path: self.targets[done], result });
        if done + 1 < self.targets.len() {
            Step {
                next: RemovalView { outcomes, ..self },
                action: ActionView::Delete { path: self.targets[done + 1] },
            }
        } else {
            Step {
                next: RemovalView { phase: Phase::Completed, outcomes, ..self },
                action: ActionView::Finish,
            }
        }
    }

    /// The next state and the action asked for, given the present state and
    /// what the caller reports.
    pub open spec fn transition(self, event: EventView) -> Step {
        match (self.phase, event) {
            (Phase::Idle, EventView::Start) => Step {
                next: RemovalView { phase: Phase::Checking, ..self },
                action: ActionView::CheckRunning { pattern: process_pattern(self.app_name) },
            },
            (Phase::Checking, EventView::Liveness(true)) => Step {
                next: RemovalView { phase: Phase::Terminating, ..self },
                action: ActionView::RequestQuit {
                    script: quit_script(self.app_name),
                    grace_seconds: GRACE_SECONDS,
                },
            },
            (Phase::Checking, EventView::Liveness(false)) => self.begin_deleting(),
            (Phase::Terminating, EventView::GraceElapsed) => self.begin_deleting(),
            (Phase::Deleting, EventView::Deleted(result)) => self.record(result),
            _ => Step { next: self, action: ActionView::Rejected },
        }
    }

    /// The state after a whole sequence of events.
    pub open spec fn run(self, events: Seq<EventView>) -> RemovalView
        decreases events.len(),
    {
        if events.len() == 0 {
            self
        } else {
            self.transition(events[0]).next.run(events.drop_first())
        }
    }
}

/// The reports of a sequence of deletions, one event per result.
pub open spec fn deletion_events(results: Seq<ResultView>) -> Seq<EventView> {
    Seq::new(results.len(), |i: int| EventView::Deleted(results[i]))
}

/// The events of a removal that runs to its end: the start, the look at the
/// process table, the wait if the application was running, then the result
/// of each deletion.
pub open spec fn removal_events(running: bool, results: Seq<ResultView>) -> Seq<EventView> {
    let head = if running {
        seq![EventView::Start, EventView::Liveness(true), EventView::GraceElapsed]
    } else {
        seq![EventView::Start, EventView::Liveness(false)]
    };
    head + deletion_events(results)
}

/// One removal in progress.
pub struct Removal {
    phase: Phase,
    app_name: String,
    targets: Vec<String>,
    outcomes: Vec<RemovalOutcome>,
}

impl View for Removal {
    type V = RemovalView;

    closed spec fn view(&self) -> RemovalView {
        RemovalView {
            phase: self.phase,
            app_name: self.app_name@,
            targets: texts(self.targets@),
            outcomes: outcome_views(self.outcomes@),
        }
    }
}

/// The text that a running application's command line holds.
pub fn process_pattern_for(app_name: &str) -> (r: String)
    ensures
        r@ == process_pattern(app_name@),
{
    let mut out = String::from_str(app_name);
    out.append(".app");
    out
}

/// The script that asks the application to quit.
pub fn quit_script_for(app_name: &str) -> (r: String)
    ensures
        r@ == quit_script(app_name@),
{
    let mut out = String::from_str("tell application \"");
    out.append(app_name);
    out.append("\" to quit");
    out
}

/// Whether a search of the process table found the application: it did
/// where the search could be run and ended with success.
pub fn is_app_running(search: Option<bool>) -> (r: bool)
    ensures
        r == (search == Some(true)),
{
    match search {
        Some(found) => found,
        None => false,
    }
}

impl Removal {
    /// A removal of the bundle at `bundle_path` and of the residual paths,
    /// not yet begun.
    pub fn new(app_name: String, bundle_path: String, residual_paths: Vec<String>) -> (r: Removal)
        ensures
            r@ == RemovalView::initial(app_name@, bundle_path@, texts(residual_paths@)),
            r@.wf(),
    {
        let ghost bundle = bundle_path@;
        let mut targets: Vec<String> = Vec::new();
        targets.push(bundle_path);
        assert(texts(targets@) =~= seq![bundle] + texts(residual_paths@).take(0));
        let mut i: usize = 0;
        while i < residual_paths.len()
            invariant
                i <= residual_paths.len(),
                texts(targets@) == seq![bundle] + texts(residual_paths@).take(i as int),
            decreases residual_paths.len() - i,
        {
            let ghost before = targets@;
            let next = residual_paths[i].clone();
            proof {
                lemma_texts_push(before, next);
                assert(texts(residual_paths@).take(i + 1) =~= texts(residual_paths@).take(
                    i as int,
                ).push(next@));
            }
            targets.push(next);
            assert(texts(targets@) =~= seq![bundle] + texts(residual_paths@).take(i + 1));
            i += 1;
        }
        assert(texts(residual_paths@).take(i as int) =~= texts(residual_paths@));
        let r = Removal { phase: Phase::Idle, app_name, targets, outcomes: Vec::new() };
        assert(r@.outcomes =~= Seq::empty());
        r
    }

    /// Where the removal stands.
    pub fn phase(&self) -> (r: Phase)
        ensures
            r == self@.phase,
    {
        self.phase
    }

    /// The outcomes so far, in the order of the attempts.
    pub fn outcomes(&self) -> (r: &Vec<RemovalOutcome>)
        ensures
            outcome_views(r@) == self@.outcomes,
    {
        &self.outcomes
    }

    /// The outcomes so far, handed over for good.
    pub fn into_outcomes(self) -> (r: Vec<RemovalOutcome>)
        ensures
            outcome_views(r@) == self@.outcomes,
    {
        self.outcomes
    }

    /// Takes what the caller reports, moves to the next state and says what
    /// is to be done next. An event that does not belong to the present
    /// phase changes nothing and is answered with `Rejected`.
    pub fn step(&mut self, event: Event) -> (action: Action)
        requires
            old(self)@.wf(),
        ensures
            final(self)@.wf(),
            final(self)@ == old(self)@.transition(event@).next,
            action@ == old(self)@.transition(event@).action,
    {
        match self.phase {
            Phase::Idle => match event {
                Event::Start => {
                    self.phase = Phase::Checking;
                    Action::CheckRunning { pattern: process_pattern_for(self.app_name.as_str()) }
                },
                _ => Action::Rejected,
            },
            Phase::Checking => match event {
                Event::Liveness(running) => {
                    if running {
                        self.phase = Phase::Terminating;
                        Action::RequestQuit {
                            script: quit_script_for(self.app_name.as_str()),
                            grace_seconds: GRACE_SECONDS,
                        }
                    } else {
                        self.phase = Phase::Deleting;
                        Action::Delete { path: self.targets[0].clone() }
                    }
                },
                _ => Action::Rejected,
            },
            Phase::Terminating => match event {
                Event::GraceElapsed => {
                    self.phase = Phase::Deleting;
                    Action::Delete { path: self.targets[0].clone() }
                },
                _ => Action::Rejected,
            },
            Phase::Deleting => match event {
                Event::Deleted(result) => {
                    let done: usize = self.outcomes.len();
                    let total: usize = self.targets.len();
                    assert(done == self@.outcomes.len() && total == self@.targets.len());
                    let path = self.targets[done].clone();
                    let ghost added = OutcomeView { path: path@, result: result@ };
                    self.outcomes.push(RemovalOutcome { path, result });
                    assert(self@.outcomes =~= old(self)@.outcomes.push(added));
                    if done + 1 < total {
                        Action::Delete { path: self.targets[done + 1].clone() }
                    } else {
                        self.phase = Phase::Completed;
                        Action::Finish
                    }
                },
                _ => Action::Rejected,
            },
            Phase::Completed => Action::Rejected,
        }
    }
}

/// Every step leads from a state that a removal can be in to another one.
pub proof fn lemma_transition_keeps_wf(state: RemovalView, event: EventView)
    requires
        state.wf(),
    ensures
        state.transition(event).next.wf(),
        state.transition(event).next.targets == state.targets,
        state.transition(event).next.app_name == state.app_name,
{
}

/// A deletion that failed does not stop the removal: the machine asks for
/// the same next action, and stands in the same phase, as after one that
/// succeeded.
pub proof fn lemma_failure_does_not_stop(state: RemovalView, message: Seq<char>)
    requires
        state.wf(),
        state.phase == Phase::Deleting,
    ensures
        state.transition(EventView::Deleted(ResultView::Failure(message))).action
            == state.transition(EventView::Deleted(ResultView::Success)).action,
        state.transition(EventView::Deleted(ResultView::Failure(message))).next.phase
            == state.transition(EventView::Deleted(ResultView::Success)).next.phase,
{
}

/// The state after a first event and the rest is the state after the rest,
/// taken from where the first event led.
pub proof fn lemma_run_first(state: RemovalView, event: EventView, rest: Seq<EventView>)
    ensures
        state.run(seq![event] + rest) == state.transition(event).next.run(rest),
{
    let events = seq![event] + rest;
    assert(events[0] == event);
    assert(events.drop_first() =~= rest);
}

/// Once the deleting has begun, one report for each path still to be tried
/// completes the removal, and each of these paths gets the result reported
/// for it, in the order of the targets.
pub proof fn lemma_deleting_runs_to_completion(state: RemovalView, results: Seq<ResultView>)
    requires
        state.wf(),
        state.phase == Phase::Deleting,
        results.len() == state.targets.len() - state.outcomes.len(),
    ensures
        state.run(deletion_events(results)).phase == Phase::Completed,
        state.run(deletion_events(results)).targets == state.targets,
        state.run(deletion_events(results)).outcomes == state.outcomes + outcomes_of(
            state.targets.skip(state.outcomes.len() as int),
            results,
        ),
    decreases results.len(),
{
    let events = deletion_events(results);
    let after = state.transition(events[0]).next;
    let rest = results.drop_first();
    assert(events.drop_first() =~= deletion_events(rest));
    let done = state.outcomes.len() as int;
    if rest.len() == 0 {
        assert(after.run(deletion_events(rest)) == after);
        assert(after.outcomes =~= state.outcomes + outcomes_of(state.targets.skip(done), results));
    } else {
        lemma_deleting_runs_to_completion(after, rest);
        assert(after.outcomes + outcomes_of(after.targets.skip(done + 1), rest) =~= state.outcomes
            + outcomes_of(state.targets.skip(done), results));
    }
}

/// A removal that is driven to its end attempts every path once, the bundle
/// first and then each residual path in the order given, and keeps one
/// outcome per path in that order, whether or not the application was
/// running and whatever each deletion came to.
pub proof fn lemma_removal_attempts_every_path(
    app_name: Seq<char>,
    bundle_path: Seq<char>,
    residual_paths: Seq<Seq<char>>,
    running: bool,
    results: Seq<ResultView>,
)
    requires
        results.len() == residual_paths.len() + 1,
    ensures
        ({
            let start = RemovalView::initial(app_name, bundle_path, residual_paths);
            let end = start.run(removal_events(running, results));
            &&& end.phase == Phase::Completed
            &&& end.outcomes == outcomes_of(seq![bundle_path] + residual_paths, results)
        }),
{
    let start = RemovalView::initial(app_name, bundle_path, residual_paths);
    let deletions = deletion_events(results);
    let checking = start.transition(EventView::Start).next;
    if running {
        let terminating = checking.transition(EventView::Liveness(true)).next;
        let deleting = terminating.transition(EventView::GraceElapsed).next;
        assert(removal_events(running, results) =~= seq![EventView::Start] + (seq![
            EventView::Liveness(true),
        ] + (seq![EventView::GraceElapsed] + deletions)));
        lemma_run_first(
            start,
            EventView::Start,
            seq![EventView::Liveness(true)] + (seq![EventView::GraceElapsed] + deletions),
        );
        lemma_run_first(
            checking,
            EventView::Liveness(true),
            seq![EventView::GraceElapsed] + deletions,
        );
        lemma_run_first(terminating, EventView::GraceElapsed, deletions);
        lemma_deleting_runs_to_completion(deleting, results);
        assert(deleting.targets.skip(0) =~= deleting.targets);
        assert(deleting.outcomes + outcomes_of(deleting.targets, results) =~= outcomes_of(
            deleting.targets,
            results,
        ));
    } else {
        let deleting = checking.transition(EventView::Liveness(false)).next;
        assert(removal_events(running, results) =~= seq![EventView::Start] + (seq![
            EventView::Liveness(false),
        ] + deletions));
        lemma_run_first(start, EventView::Start, seq![EventView::Liveness(false)] + deletions);
        lemma_run_first(checking, EventView::Liveness(false), deletions);
        lemma_deleting_runs_to_completion(deleting, results);
        assert(deleting.targets.skip(0) =~= deleting.targets);
        assert(deleting.outcomes + outcomes_of(deleting.targets, results) =~= outcomes_of(
            deleting.targets,
            results,
        ));
    }
}

/// The line of the final report for a deletion that failed: the path, a
/// colon and the message.
pub open spec fn failure_line(path: Seq<char>, message: Seq<char>) -> Seq<char> {
    path + ": "@ + message
}

/// The lines of the final report: one for each deletion that failed, in the
/// order of the attempts.
pub open spec fn failure_lines(outcomes: Seq<OutcomeView>) -> Seq<Seq<char>>
    decreases outcomes.len(),
{
    if outcomes.len() == 0 {
        Seq::empty()
    } else {
        let before = failure_lines(outcomes.drop_last());
        match outcomes.last().result {
            ResultView::Failure(message) => before.push(
                failure_line(outcomes.last().path, message),
            ),
            ResultView::Success => before,
        }
    }
}

/// One line for each deletion that failed, in the order of the attempts.
/// The removal went through without error exactly where there is none.
pub fn failures(outcomes: &Vec<RemovalOutcome>) -> (r: Vec<String>)
    ensures
        texts(r@) == failure_lines(outcome_views(outcomes@)),
{
    let mut lines: Vec<String> = Vec::new();
    let mut i: usize = 0;
    assert(outcome_views(outcomes@).take(0) =~= Seq::empty());
    assert(texts(lines@) =~= Seq::empty());
    while i < outcomes.len()
        invariant
            i <= outcomes.len(),
            texts(lines@) == failure_lines(outcome_views(outcomes@).take(i as int)),
        decreases outcomes.len() - i,
    {
        let ghost views = outcome_views(outcomes@);
        assert(views.take(i + 1).drop_last() =~= views.take(i as int));
        assert(views.take(i + 1).last() == outcomes@[i as int]@);
        match &outcomes[i].result {
            RemovalResult::Failure(message) => {
                let mut line = outcomes[i].path.clone();
                line.append(": ");
                line.append(message.as_str());
                proof {
                    lemma_texts_push(lines@, line);
                }
                lines.push(line);
            },
            RemovalResult::Success => {},
        }
        i += 1;
    }
    assert(outcome_views(outcomes@).take(i as int) =~= outcome_views(outcomes@));
    lines
}

} // verus!
