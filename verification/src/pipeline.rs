//! Whole runs of the pipeline: what the scanner and the workers have announced
//! when they have taken turns in whatever order.
//!
//! Each thread does one thing after another: it announces an event, or it does
//! something to the queue. A run is any sequence of such steps, the steps of one
//! thread between those of the others.

use vstd::prelude::*;

use crate::engine::{
    conclusion, found_event, resolve_job, size_jobs, Answer, EventFact, JobFact, QueueFact,
    ScannerFact,
};
use crate::project::{ArtifactFact, ProjectId};
use crate::scan::CandidateFact;

verus! {

/// What a worker has in hand.
pub struct Hand {
    /// The job that it has taken up.
    pub job: JobFact,
    /// It has announced what came of the job.
    pub told: bool,
    /// The jobs that it is about to queue, in order.
    pub owed: Seq<JobFact>,
}

/// How far a run has come.
pub struct RunFact {
    /// Only what git ignores counts as an artifact.
    pub checked: bool,
    pub scanner: ScannerFact,
    /// The job on a project that the scanner has announced and not yet queued.
    pub announced: Option<JobFact>,
    pub queue: QueueFact,
    pub hands: Seq<Hand>,
    /// Workers stop at their next job.
    pub cancelled: bool,
    /// What has been announced, in order.
    pub events: Seq<EventFact>,
}

/// What one thread does at once.
pub enum Step {
    /// The scanner finds a project and announces it.
    Find(CandidateFact),
    /// The scanner queues the job on the project that it has announced.
    Queue,
    /// Something else is announced: progress, the end of the walk, or that
    /// cleaning starts.
    Note(EventFact),
    /// The scanner reports that the scan is over.
    EndScan,
    /// A worker takes up the job at the front of the queue.
    Take,
    /// A worker drops its job because work was cancelled.
    Stop(int),
    /// A worker announces what came of its job.
    Conclude(int, Answer),
    /// A worker queues the next of the jobs that follow from its job.
    Pass(int),
    /// A worker finishes its job.
    Finish(int),
    /// The user asks for a deletion.
    Clean(JobFact),
    /// Work is cancelled.
    Cancel,
    /// The queue is closed.
    Close,
}

/// Nothing has happened yet.
pub open spec fn run_start(checked: bool) -> RunFact {
    RunFact {
        checked,
        scanner: ScannerFact { next_id: 0, dirs: 0 },
        announced: None,
        queue: QueueFact::fresh(),
        hands: seq![],
        cancelled: false,
        events: seq![],
    }
}

impl RunFact {
    /// The step can come next. No list of artifacts is longer than a machine
    /// integer can count.
    pub open spec fn allows(self, step: Step) -> bool {
        match step {
            Step::Find(_) => self.announced is None && self.queue.scanning && self.scanner.next_id
                < usize::MAX,
            Step::Queue => self.announced is Some,
            Step::Note(event) => event is Progress || event is ScanFinished || event is CleanStarted,
            Step::EndScan => self.announced is None,
            Step::Take => self.queue.jobs.len() > 0,
            Step::Stop(w) => 0 <= w < self.hands.len() && self.cancelled && !self.hands[w].told,
            Step::Conclude(w, answer) => 0 <= w < self.hands.len() && !self.hands[w].told && (
            conclusion(self.hands[w].job, self.checked, answer) matches Some((_, next))
                && next.len() <= usize::MAX),
            Step::Pass(w) => 0 <= w < self.hands.len() && self.hands[w].owed.len() > 0,
            Step::Finish(w) => 0 <= w < self.hands.len() && self.hands[w].told
                && self.hands[w].owed.len() == 0,
            Step::Clean(job) => job is Clean,
            Step::Cancel => true,
            Step::Close => true,
        }
    }

    /// What the step leads to.
    pub open spec fn after(self, step: Step) -> RunFact {
        match step {
            Step::Find(candidate) => RunFact {
                scanner: ScannerFact { next_id: self.scanner.next_id + 1, ..self.scanner },
                announced: Some(resolve_job(self.scanner.next_id, candidate)),
                events: self.events.push(found_event(self.scanner.next_id, candidate)),
                ..self
            },
            Step::Queue => RunFact {
                announced: None,
                queue: self.queue.pushed(self.announced->0, false),
                ..self
            },
            Step::Note(event) => RunFact { events: self.events.push(event), ..self },
            Step::EndScan => RunFact { queue: self.queue.scanned(), ..self },
            Step::Take => RunFact {
                queue: self.queue.popped(),
                hands: self.hands.push(
                    Hand { job: self.queue.jobs[0], told: false, owed: seq![] },
                ),
                ..self
            },
            Step::Stop(w) => RunFact {
                queue: self.queue.finished(),
                hands: self.hands.remove(w),
                ..self
            },
            Step::Conclude(w, answer) => {
                let (event, next) = conclusion(self.hands[w].job, self.checked, answer)->0;
                RunFact {
                    hands: self.hands.update(
                        w,
                        Hand { told: true, owed: next, ..self.hands[w] },
                    ),
                    events: self.events.push(event),
                    ..self
                }
            },
            Step::Pass(w) => RunFact {
                queue: self.queue.pushed(self.hands[w].owed[0], false),
                hands: self.hands.update(
                    w,
                    Hand { owed: self.hands[w].owed.skip(1), ..self.hands[w] },
                ),
                ..self
            },
            Step::Finish(w) => RunFact {
                queue: self.queue.finished(),
                hands: self.hands.remove(w),
                ..self
            },
            Step::Clean(job) => RunFact { queue: self.queue.pushed(job, true), ..self },
            Step::Cancel => RunFact { cancelled: true, ..self },
            Step::Close => RunFact { queue: self.queue.shut(), ..self },
        }
    }
}

/// The steps one after the other; one that cannot come next changes nothing.
pub open spec fn ran(checked: bool, steps: Seq<Step>) -> RunFact
    decreases steps.len(),
{
    if steps.len() == 0 {
        run_start(checked)
    } else {
        let before = ran(checked, steps.drop_last());
        if before.allows(steps.last()) {
            before.after(steps.last())
        } else {
            before
        }
    }
}

/// How many members of `s` are as `p` says.
pub open spec fn tally<A>(s: Seq<A>, p: spec_fn(A) -> bool) -> nat
    decreases s.len(),
{
    if s.len() == 0 {
        0
    } else {
        tally(s.drop_last(), p) + if p(s.last()) {
            1nat
        } else {
            0nat
        }
    }
}

/// Something that the pipeline owes its consumer.
pub enum Due {
    /// The artifacts of a project.
    Artifacts(ProjectId),
    /// The size of one of its artifacts.
    Size(ProjectId, usize),
}

impl Due {
    /// With this event it is owed: the project was found, or its artifacts were
    /// announced and there are so many.
    pub open spec fn arises(self) -> spec_fn(EventFact) -> bool {
        match self {
            Due::Artifacts(id) => |e: EventFact| e matches EventFact::Found(p) && p.id == id,
            Due::Size(id, index) => |e: EventFact|
                e matches EventFact::Artifacts { id: i, artifacts, .. } && i == id && index
                    < artifacts.len(),
        }
    }

    /// With this event it is given.
    pub open spec fn is_met(self) -> spec_fn(EventFact) -> bool {
        match self {
            Due::Artifacts(id) => |e: EventFact|
                e matches EventFact::Artifacts { id: i, .. } && i == id,
            Due::Size(id, index) => |e: EventFact|
                e matches EventFact::Sized { id: i, index: k, .. } && i == id && k == index,
        }
    }

    /// The job that will give it.
    pub open spec fn falls_to(self) -> spec_fn(JobFact) -> bool {
        match self {
            Due::Artifacts(id) => |j: JobFact| j matches JobFact::Resolve { id: i, .. } && i == id,
            Due::Size(id, index) => |j: JobFact|
                j matches JobFact::Size { id: i, index: k, .. } && i == id && k == index,
        }
    }
}

proof fn lemma_tally_push<A>(s: Seq<A>, x: A, p: spec_fn(A) -> bool)
    ensures
        tally(s.push(x), p) == tally(s, p) + if p(x) {
            1nat
        } else {
            0nat
        },
{
    assert(s.push(x).drop_last() =~= s);
}

proof fn lemma_tally_concat<A>(a: Seq<A>, b: Seq<A>, p: spec_fn(A) -> bool)
    ensures
        tally(a + b, p) == tally(a, p) + tally(b, p),
    decreases b.len(),
{
    if b.len() == 0 {
        assert(a + b =~= a);
    } else {
        lemma_tally_concat(a, b.drop_last(), p);
        assert((a + b).drop_last() =~= a + b.drop_last());
    }
}

proof fn lemma_tally_one<A>(x: A, p: spec_fn(A) -> bool)
    ensures
        tally(seq![x], p) == if p(x) {
            1nat
        } else {
            0nat
        },
{
    lemma_tally_push(Seq::<A>::empty(), x, p);
    assert(Seq::<A>::empty().push(x) =~= seq![x]);
}

proof fn lemma_tally_first<A>(s: Seq<A>, p: spec_fn(A) -> bool)
    requires
        s.len() > 0,
    ensures
        tally(s, p) == tally(s.skip(1), p) + if p(s[0]) {
            1nat
        } else {
            0nat
        },
{
    assert(s =~= seq![s[0]] + s.skip(1));
    lemma_tally_concat(seq![s[0]], s.skip(1), p);
    lemma_tally_one(s[0], p);
}

/// Where all that `p` counts is counted by `q`, `q` counts no less.
proof fn lemma_tally_wider<A>(s: Seq<A>, p: spec_fn(A) -> bool, q: spec_fn(A) -> bool)
    requires
        forall|x: A| #[trigger] p(x) ==> q(x),
    ensures
        tally(s, p) <= tally(s, q),
    decreases s.len(),
{
    if s.len() > 0 {
        lemma_tally_wider(s.drop_last(), p, q);
    }
}

proof fn lemma_tally_prefix<A>(s: Seq<A>, n: int, p: spec_fn(A) -> bool)
    requires
        0 <= n <= s.len(),
    ensures
        tally(s, p) == tally(s.take(n), p) + tally(s.skip(n), p),
{
    assert(s =~= s.take(n) + s.skip(n));
    lemma_tally_concat(s.take(n), s.skip(n), p);
}

/// The measuring jobs of a project hold one for each artifact.
proof fn lemma_size_jobs(id: ProjectId, artifacts: Seq<ArtifactFact>, due: Due)
    requires
        artifacts.len() <= usize::MAX,
    ensures
        tally(size_jobs(id, artifacts), due.falls_to()) == if due matches Due::Size(i, index)
            && i == id && index < artifacts.len() {
            1nat
        } else {
            0nat
        },
    decreases artifacts.len(),
{
    if artifacts.len() > 0 {
        lemma_size_jobs(id, artifacts.drop_last(), due);
        assert(size_jobs(id, artifacts).drop_last() =~= size_jobs(id, artifacts.drop_last()));
    }
}

/// How many of the jobs in hand give `due`.
spec fn in_hands(hands: Seq<Hand>, due: Due) -> nat
    decreases hands.len(),
{
    if hands.len() == 0 {
        0
    } else {
        in_hands(hands.drop_last(), due) + in_hand(hands.last(), due)
    }
}

spec fn in_hand(hand: Hand, due: Due) -> nat {
    tally(hand.owed, due.falls_to()) + if !hand.told && (due.falls_to())(hand.job) {
        1nat
    } else {
        0nat
    }
}

proof fn lemma_in_hands_concat(a: Seq<Hand>, b: Seq<Hand>, due: Due)
    ensures
        in_hands(a + b, due) == in_hands(a, due) + in_hands(b, due),
    decreases b.len(),
{
    if b.len() == 0 {
        assert(a + b =~= a);
    } else {
        lemma_in_hands_concat(a, b.drop_last(), due);
        assert((a + b).drop_last() =~= a + b.drop_last());
    }
}

proof fn lemma_in_hands_one(hand: Hand, due: Due)
    ensures
        in_hands(seq![hand], due) == in_hand(hand, due),
{
    assert(seq![hand].drop_last() =~= Seq::<Hand>::empty());
    assert(in_hands(Seq::<Hand>::empty(), due) == 0);
}

/// One hand is counted apart from the others.
proof fn lemma_in_hands_apart(hands: Seq<Hand>, w: int, hand: Hand, due: Due)
    requires
        0 <= w < hands.len(),
    ensures
        in_hands(hands, due) == in_hands(hands.remove(w), due) + in_hand(hands[w], due),
        in_hands(hands.update(w, hand), due) == in_hands(hands.remove(w), due) + in_hand(hand, due),
{
    let (left, right) = (hands.take(w), hands.skip(w + 1));
    assert(hands =~= (left + seq![hands[w]]) + right);
    assert(hands.update(w, hand) =~= (left + seq![hand]) + right);
    assert(hands.remove(w) =~= left + right);
    lemma_in_hands_concat(left + seq![hands[w]], right, due);
    lemma_in_hands_concat(left, seq![hands[w]], due);
    lemma_in_hands_concat(left + seq![hand], right, due);
    lemma_in_hands_concat(left, seq![hand], due);
    lemma_in_hands_concat(left, right, due);
    lemma_in_hands_one(hands[w], due);
    lemma_in_hands_one(hand, due);
}

/// How many jobs are under way that give `due`.
spec fn under_way(st: RunFact, due: Due) -> nat {
    tally(st.queue.jobs, due.falls_to()) + in_hands(st.hands, due) + if st.announced matches Some(
        job,
    ) && (due.falls_to())(job) {
        1nat
    } else {
        0nat
    }
}

/// The books are in order: what is owed has been given or is under way.
spec fn is_balanced(st: RunFact, due: Due) -> bool {
    let met = tally(st.events, due.is_met());
    let arisen = tally(st.events, due.arises());
    &&& met + under_way(st, due) <= arisen
    &&& !st.cancelled && !st.queue.closed ==> met + under_way(st, due) == arisen
    &&& due matches Due::Artifacts(id) ==> arisen == if id < st.scanner.next_id {
        1nat
    } else {
        0nat
    }
    &&& forall|n: int|
        0 <= n <= st.events.len() ==> #[trigger] tally(st.events.take(n), due.is_met()) <= tally(
            st.events.take(n),
            due.arises(),
        )
}

/// Every hand and every queued job is outstanding, and nothing else is.
spec fn is_counted(st: RunFact) -> bool {
    &&& st.scanner.next_id <= usize::MAX
    &&& !st.queue.closed ==> st.queue.pending == st.queue.jobs.len() + st.hands.len()
    &&& !st.queue.scanning ==> st.announced is None
    &&& forall|w: int|
        0 <= w < st.hands.len() ==> (#[trigger] st.hands[w]).told || st.hands[w].owed.len() == 0
}

proof fn lemma_pushed(q: QueueFact, job: JobFact, front: bool, due: Due)
    ensures
        q.closed ==> q.pushed(job, front) == q,
        !q.closed ==> tally(q.pushed(job, front).jobs, due.falls_to()) == tally(
            q.jobs,
            due.falls_to(),
        ) + if (due.falls_to())(job) {
            1nat
        } else {
            0nat
        },
{
    lemma_tally_push(q.jobs, job, due.falls_to());
    lemma_tally_concat(seq![job], q.jobs, due.falls_to());
    lemma_tally_one(job, due.falls_to());
}

/// An event is added and the books stay in order up to it.
proof fn lemma_told(st: RunFact, next: RunFact, event: EventFact, due: Due)
    requires
        is_balanced(st, due),
        next.events == st.events.push(event),
        tally(next.events, due.is_met()) <= tally(next.events, due.arises()),
    ensures
        forall|n: int|
            0 <= n <= next.events.len() ==> #[trigger] tally(next.events.take(n), due.is_met())
                <= tally(next.events.take(n), due.arises()),
{
    assert forall|n: int| 0 <= n <= next.events.len() implies #[trigger] tally(
        next.events.take(n),
        due.is_met(),
    ) <= tally(next.events.take(n), due.arises()) by {
        if n < next.events.len() {
            assert(next.events.take(n) =~= st.events.take(n));
            assert(tally(st.events.take(n), due.is_met()) <= tally(
                st.events.take(n),
                due.arises(),
            ));
        } else {
            assert(next.events.take(n) =~= next.events);
        }
    }
}

proof fn lemma_step(st: RunFact, step: Step, due: Due)
    requires
        is_balanced(st, due),
        is_counted(st),
        st.allows(step),
    ensures
        is_balanced(st.after(step), due),
        is_counted(st.after(step)),
{
    let next = st.after(step);
    let f = due.falls_to();
    match step {
        Step::Find(candidate) => {
            let event = found_event(st.scanner.next_id, candidate);
            lemma_tally_push(st.events, event, due.is_met());
            lemma_tally_push(st.events, event, due.arises());
            lemma_told(st, next, event, due);
        },
        Step::Queue => {
            lemma_pushed(st.queue, st.announced->0, false, due);
        },
        Step::Note(event) => {
            lemma_tally_push(st.events, event, due.is_met());
            lemma_tally_push(st.events, event, due.arises());
            lemma_told(st, next, event, due);
        },
        Step::EndScan => {},
        Step::Take => {
            let hand = Hand { job: st.queue.jobs[0], told: false, owed: seq![] };
            lemma_tally_first(st.queue.jobs, f);
            lemma_in_hands_concat(st.hands, seq![hand], due);
            lemma_in_hands_one(hand, due);
            assert(st.hands.push(hand) =~= st.hands + seq![hand]);
            assert(tally(hand.owed, f) == 0);
        },
        Step::Stop(w) => {
            lemma_in_hands_apart(st.hands, w, st.hands[w], due);
        },
        Step::Conclude(w, answer) => {
            let (event, jobs) = conclusion(st.hands[w].job, st.checked, answer)->0;
            let hand = Hand { told: true, owed: jobs, ..st.hands[w] };
            lemma_in_hands_apart(st.hands, w, hand, due);
            lemma_tally_push(st.events, event, due.is_met());
            lemma_tally_push(st.events, event, due.arises());
            assert(tally(st.hands[w].owed, f) == 0);
            if let EventFact::Artifacts { id, artifacts, .. } = event {
                assert(jobs == size_jobs(id, artifacts));
                lemma_size_jobs(id, artifacts, due);
            } else {
                assert(tally(jobs, f) == 0);
            }
            lemma_told(st, next, event, due);
        },
        Step::Pass(w) => {
            let hand = Hand { owed: st.hands[w].owed.skip(1), ..st.hands[w] };
            lemma_in_hands_apart(st.hands, w, hand, due);
            lemma_tally_first(st.hands[w].owed, f);
            lemma_pushed(st.queue, st.hands[w].owed[0], false, due);
        },
        Step::Finish(w) => {
            lemma_in_hands_apart(st.hands, w, st.hands[w], due);
        },
        Step::Clean(job) => {
            lemma_pushed(st.queue, job, true, due);
        },
        Step::Cancel => {},
        Step::Close => {
            assert(tally(next.queue.jobs, f) == 0);
        },
    }
}

proof fn lemma_run(checked: bool, steps: Seq<Step>, due: Due)
    ensures
        is_balanced(ran(checked, steps), due),
        is_counted(ran(checked, steps)),
    decreases steps.len(),
{
    if steps.len() == 0 {
        let st = run_start(checked);
        assert(tally(st.events, due.is_met()) == 0 && tally(st.events, due.arises()) == 0);
        assert(under_way(st, due) == 0);
        assert(st.events.take(0) =~= st.events);
    } else {
        lemma_run(checked, steps.drop_last(), due);
        let st = ran(checked, steps.drop_last());
        if st.allows(steps.last()) {
            lemma_step(st, steps.last(), due);
        }
    }
}

/// In whatever order the threads take turns, each project that was found is
/// announced once, and nothing is given that is not owed: the artifacts of a
/// project are announced at most once, and only after the project; an artifact
/// is measured at most once, and only after it was announced.
pub proof fn law_nothing_is_given_twice(checked: bool, steps: Seq<Step>, due: Due)
    ensures
        ({
            let st = ran(checked, steps);
            &&& tally(st.events, due.arises()) <= 1
            &&& due matches Due::Artifacts(id) ==> tally(st.events, due.arises()) == if id
                < st.scanner.next_id {
                1nat
            } else {
                0nat
            }
            &&& forall|n: int|
                0 <= n <= st.events.len() ==> #[trigger] tally(st.events.take(n), due.is_met())
                    <= tally(st.events.take(n), due.arises())
        }),
{
    let st = ran(checked, steps);
    lemma_run(checked, steps, due);
    if let Due::Size(id, index) = due {
        let whole = Due::Artifacts(id);
        lemma_run(checked, steps, whole);
        lemma_tally_wider(st.events, due.arises(), whole.is_met());
    }
}

/// When the scan is over and no work is left, and the pipeline was not shut
/// down, each project that was found has had its artifacts announced exactly
/// once, and each artifact announced has been measured exactly once.
pub proof fn law_idle_run_has_given_all(checked: bool, steps: Seq<Step>, due: Due)
    requires
        ran(checked, steps).queue.is_idle(),
        !ran(checked, steps).queue.closed,
        !ran(checked, steps).cancelled,
    ensures
        ({
            let st = ran(checked, steps);
            tally(st.events, due.is_met()) == tally(st.events, due.arises())
        }),
{
    let st = ran(checked, steps);
    lemma_run(checked, steps, due);
    assert(st.queue.jobs.len() == 0 && st.hands.len() == 0);
}

/// The same of one project, spelled out: in a run that has gone idle, a project
/// that was found has exactly one announcement of its artifacts, and behind it
/// exactly one measurement of each, with none before it.
pub proof fn law_project_is_announced_then_measured(
    checked: bool,
    steps: Seq<Step>,
    id: ProjectId,
    k: int,
    index: usize,
)
    requires
        ran(checked, steps).queue.is_idle(),
        !ran(checked, steps).queue.closed,
        !ran(checked, steps).cancelled,
        id < ran(checked, steps).scanner.next_id,
    ensures
        ({
            let events = ran(checked, steps).events;
            &&& tally(events, Due::Artifacts(id).is_met()) == 1
            &&& 0 <= k < events.len() && (Due::Size(id, index).arises())(events[k]) ==> {
                &&& tally(events.take(k), Due::Size(id, index).is_met()) == 0
                &&& tally(events.skip(k + 1), Due::Size(id, index).is_met()) == 1
            }
        }),
{
    let events = ran(checked, steps).events;
    let due = Due::Size(id, index);
    law_nothing_is_given_twice(checked, steps, Due::Artifacts(id));
    law_idle_run_has_given_all(checked, steps, Due::Artifacts(id));
    law_nothing_is_given_twice(checked, steps, due);
    law_idle_run_has_given_all(checked, steps, due);
    if 0 <= k < events.len() && (due.arises())(events[k]) {
        lemma_tally_prefix(events, k, due.arises());
        lemma_tally_prefix(events, k, due.is_met());
        lemma_tally_first(events.skip(k), due.arises());
        lemma_tally_first(events.skip(k), due.is_met());
        assert(events.skip(k).skip(1) =~= events.skip(k + 1));
        assert(tally(events.take(k), due.is_met()) <= tally(events.take(k), due.arises()));
    }
}

} // verus!
