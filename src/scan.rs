//! The decisions of a scan: how many file checks may run at once, and the findings
//! of a whole tree.
use vstd::prelude::*;
use crate::checker::{findings_of, FindingView};

verus! {

/// The most file checks that run at the same time.
pub const MAX_IN_FLIGHT: usize = 20;

/// The number of results that the output channel buffers before senders wait.
pub const CHANNEL_CAPACITY: usize = 100;

/// What happened since the scheduler last decided.
#[derive(Debug, Clone, Copy)]
pub enum Event {
    /// The walk found a file to check.
    FileReady,
    /// A file check completed.
    TaskFinished,
}

/// What the scheduler asks for.
#[derive(Debug, Clone, Copy)]
pub enum Action {
    /// Start the check of the file that is ready.
    Spawn,
    /// Wait until one running check completes, then offer the file again.
    WaitForOne,
    /// Nothing to do.
    Continue,
}

/// The number of running checks after one event.
pub open spec fn step(limit: nat, active: nat, e: Event) -> nat {
    match e {
        Event::FileReady => if active < limit {
            active + 1
        } else {
            active
        },
        Event::TaskFinished => if active > 0 {
            (active - 1) as nat
        } else {
            0
        },
    }
}

/// The number of running checks after a sequence of events, from none.
pub open spec fn active_after(limit: nat, events: Seq<Event>) -> nat
    decreases events.len(),
{
    if events.len() == 0 {
        0
    } else {
        step(limit, active_after(limit, events.drop_last()), events.last())
    }
}

/// With a positive limit, no sequence of events brings more than `limit` checks
/// to run at the same time.
pub proof fn lemma_cap_never_exceeded(limit: nat, events: Seq<Event>)
    requires
        limit > 0,
    ensures
        active_after(limit, events) <= limit,
    decreases events.len(),
{
    if events.len() > 0 {
        lemma_cap_never_exceeded(limit, events.drop_last());
    }
}

/// Counts the running file checks and admits a new one only below the limit.
pub struct Scheduler {
    limit: usize,
    active: usize,
}

impl Scheduler {
    pub closed spec fn limit(&self) -> nat {
        self.limit as nat
    }

    pub closed spec fn active(&self) -> nat {
        self.active as nat
    }

    #[verifier::type_invariant]
    spec fn inv(&self) -> bool {
        0 < self.limit && self.active <= self.limit
    }

    /// A scheduler with no check running.
    pub fn new(limit: usize) -> (r: Scheduler)
        requires
            limit > 0,
        ensures
            r.limit() == limit,
            r.active() == 0,
    {
        Scheduler { limit, active: 0 }
    }

    /// Decides on one event. A ready file is started only while fewer than `limit`
    /// checks run; otherwise the caller waits for one to finish.
    pub fn on_event(&mut self, event: Event) -> (a: Action)
        ensures
            0 < final(self).limit(),
            final(self).active() <= final(self).limit(),
            final(self).limit() == old(self).limit(),
            final(self).active() == step(old(self).limit(), old(self).active(), event),
            a is Spawn <==> event is FileReady && old(self).active() < old(self).limit(),
            a is WaitForOne <==> event is FileReady && old(self).active() >= old(self).limit(),
            a is Continue <==> event is TaskFinished,
    {
        proof {
            use_type_invariant(&*self);
        }
        match event {
            Event::FileReady => {
                if self.active < self.limit {
                    self.active = self.active + 1;
                    Action::Spawn
                } else {
                    Action::WaitForOne
                }
            },
            Event::TaskFinished => {
                if self.active > 0 {
                    self.active = self.active - 1;
                }
                Action::Continue
            },
        }
    }

    /// The number of checks running.
    pub fn in_flight(&self) -> (r: usize)
        ensures
            r == self.active(),
            r <= self.limit(),
    {
        proof {
            use_type_invariant(self);
        }
        self.active
    }
}

/// How a scan ended, as its caller reports it.
#[derive(Debug, Clone, Copy)]
pub enum Outcome {
    /// No finding and no error.
    Clean,
    /// No finding, but some files or directories could not be read.
    ProcessingErrors,
    /// At least one unknown word.
    Misspellings,
}

/// Classifies a finished scan by its counts of findings and of errors.
pub fn outcome(findings: usize, errors: usize) -> (r: Outcome)
    ensures
        r is Misspellings <==> findings > 0,
        r is ProcessingErrors <==> findings == 0 && errors > 0,
        r is Clean <==> findings == 0 && errors == 0,
{
    if findings > 0 {
        Outcome::Misspellings
    } else if errors > 0 {
        Outcome::ProcessingErrors
    } else {
        Outcome::Clean
    }
}

impl Outcome {
    /// The process status for this outcome: failure only when words were reported.
    pub fn exit_code(&self) -> (r: i32)
        ensures
            r == (if *self is Misspellings {
                1i32
            } else {
                0i32
            }),
    {
        match self {
            Outcome::Misspellings => 1,
            _ => 0,
        }
    }
}

/// A file of a tree: its path and its lines.
pub type FileView = (Seq<char>, Seq<Seq<char>>);

/// Every finding of a scan over `files`, whatever the order in which they are checked.
pub open spec fn scan_findings(
    files: Seq<FileView>,
    dict: Set<Seq<char>>,
    ignore: Seq<Seq<char>>,
) -> Set<FindingView> {
    Set::new(
        |f: FindingView|
            exists|i: int|
                0 <= i < files.len() && #[trigger] findings_of(
                    files[i].0,
                    files[i].1,
                    dict,
                    ignore,
                ).contains(f),
    )
}

/// Scanning the same files twice, in any order, with the same dictionary and
/// ignored words, gives the same set of findings.
pub proof fn lemma_rescan_same_findings(
    first: Seq<FileView>,
    second: Seq<FileView>,
    dict: Set<Seq<char>>,
    ignore: Seq<Seq<char>>,
)
    requires
        first.to_set() == second.to_set(),
    ensures
        scan_findings(first, dict, ignore) == scan_findings(second, dict, ignore),
{
    assert forall|f: FindingView|
        scan_findings(first, dict, ignore).contains(f) implies scan_findings(
            second,
            dict,
            ignore,
        ).contains(f) by {
        let i = choose|i: int|
            0 <= i < first.len() && #[trigger] findings_of(
                first[i].0,
                first[i].1,
                dict,
                ignore,
            ).contains(f);
        assert(first.to_set().contains(first[i]));
        assert(second.contains(first[i]));
        let j = choose|j: int| 0 <= j < second.len() && second[j] == first[i];
        assert(findings_of(second[j].0, second[j].1, dict, ignore).contains(f));
    }
    assert forall|f: FindingView|
        scan_findings(second, dict, ignore).contains(f) implies scan_findings(
            first,
            dict,
            ignore,
        ).contains(f) by {
        let i = choose|i: int|
            0 <= i < second.len() && #[trigger] findings_of(
                second[i].0,
                second[i].1,
                dict,
                ignore,
            ).contains(f);
        assert(second.to_set().contains(second[i]));
        assert(first.contains(second[i]));
        let j = choose|j: int| 0 <= j < first.len() && first[j] == second[i];
        assert(findings_of(first[j].0, first[j].1, dict, ignore).contains(f));
    }
    assert(scan_findings(first, dict, ignore) =~= scan_findings(second, dict, ignore));
}

} // verus!
