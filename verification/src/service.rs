//! The state of the install service: one install at a time, cancellable
//! while it runs.
use vstd::prelude::*;

use crate::install::{error_text, EngineError, Event, EventView, Fault, Step};
use crate::text;

verus! {

#[derive(Debug, Clone, Copy, PartialEq, Eq, Structural)]
pub enum RunState {
    Idle,
    Running,
    Done,
    Error,
}

impl RunState {
    pub open spec fn name(self) -> Seq<char> {
        match self {
            RunState::Idle => "idle"@,
            RunState::Running => "running"@,
            RunState::Done => "done"@,
            RunState::Error => "error"@,
        }
    }

    pub fn as_str(self) -> (r: &'static str)
        ensures
            r@ == self.name(),
    {
        match self {
            RunState::Idle => "idle",
            RunState::Running => "running",
            RunState::Done => "done",
            RunState::Error => "error",
        }
    }
}

/// The service between and during installs.
#[derive(Debug, Clone, Copy, PartialEq, Eq, Structural)]
pub struct Installer {
    pub state: RunState,
    pub current_step: Option<Step>,
    /// There is an install that a cancel request reaches.
    pub cancellable: bool,
    /// What the idle timer is told.
    pub idle: bool,
}

/// What is announced when an install ends, and what its caller is told.
#[derive(Debug, PartialEq, Eq)]
pub struct Completion {
    pub success: bool,
    pub error: String,
    pub reply: Result<(), String>,
}

/// What the caller of a failed install is told.
pub open spec fn reply_text(e: (Fault, Seq<char>)) -> Seq<char> {
    match e.0 {
        Fault::Cancelled => "install cancelled by Cancel()"@,
        _ => error_text(e),
    }
}

/// The service once an install was let in.
pub open spec fn begun() -> Installer {
    Installer { state: RunState::Running, current_step: None, cancellable: true, idle: false }
}

/// The service after an event of the running install.
pub open spec fn observed(s: Installer, e: EventView) -> Installer {
    match e {
        EventView::StepChanged { step, .. } => Installer { current_step: Some(step), ..s },
        _ => s,
    }
}

/// The service once the install has ended.
pub open spec fn finished(s: Installer, success: bool) -> Installer {
    Installer {
        state: if success {
            RunState::Done
        } else {
            RunState::Error
        },
        current_step: s.current_step,
        cancellable: false,
        idle: true,
    }
}

/// Whether an install that is asked for now is let in.
pub open spec fn lets_in(s: Installer) -> bool {
    !(s.state is Running)
}

impl Installer {
    /// An install runs exactly as long as the service is busy and can be
    /// cancelled.
    pub open spec fn wf(self) -> bool {
        &&& self.cancellable <==> self.state is Running
        &&& self.idle <==> !(self.state is Running)
    }

    pub fn new() -> (r: Installer)
        ensures
            r == (Installer {
                state: RunState::Idle,
                current_step: None,
                cancellable: false,
                idle: true,
            }),
            r.wf(),
    {
        Installer { state: RunState::Idle, current_step: None, cancellable: false, idle: true }
    }

    /// Starts an install, unless one is running.
    pub fn begin(&mut self) -> (r: Result<(), String>)
        requires
            old(self).wf(),
        ensures
            final(self).wf(),
            match r {
                Ok(_) => lets_in(*old(self)) && *final(self) == begun(),
                Err(m) => !lets_in(*old(self)) && m@ == "install already in progress"@
                    && *final(self) == *old(self),
            },
    {
        if matches!(self.state, RunState::Running) {
            return Err("install already in progress".to_owned());
        }
        self.state = RunState::Running;
        self.current_step = None;
        self.cancellable = true;
        self.idle = false;
        Ok(())
    }

    /// Takes note of an event of the running install.
    pub fn observe(&mut self, event: &Event)
        requires
            old(self).wf(),
        ensures
            final(self).wf(),
            *final(self) == observed(*old(self), event@),
    {
        if let Event::StepChanged { step, .. } = event {
            self.current_step = Some(*step);
        }
    }

    /// Ends the running install.
    pub fn finish(&mut self, result: &Result<(), EngineError>) -> (r: Completion)
        requires
            old(self).wf(),
        ensures
            final(self).wf(),
            *final(self) == finished(*old(self), result is Ok),
            r.success == (result is Ok),
            match result {
                Ok(_) => r.error@.len() == 0 && r.reply == Ok::<(), String>(()),
                Err(e) => r.error@ == error_text(e@) && (r.reply matches Err(m) && m@ == reply_text(
                    e@,
                )),
            },
    {
        self.cancellable = false;
        self.idle = true;
        match result {
            Ok(_) => {
                self.state = RunState::Done;
                Completion { success: true, error: String::new(), reply: Ok(()) }
            },
            Err(e) => {
                self.state = RunState::Error;
                let reply = match e {
                    EngineError::Cancelled => "install cancelled by Cancel()".to_owned(),
                    _ => e.message(),
                };
                Completion { success: false, error: e.message(), reply: Err(reply) }
            },
        }
    }

    /// Whether a cancel request reaches a running install.
    pub fn cancel(&self) -> (r: bool)
        requires
            self.wf(),
        ensures
            r == (self.state is Running),
    {
        self.cancellable
    }

    /// Probing mounts things, so it is refused while an install runs.
    pub fn may_probe(&self) -> (r: Result<(), String>)
        ensures
            match r {
                Ok(_) => !(self.state is Running),
                Err(m) => self.state is Running && m@ == "install in progress; probe refused"@,
            },
    {
        if matches!(self.state, RunState::Running) {
            Err("install in progress; probe refused".to_owned())
        } else {
            Ok(())
        }
    }

    /// The name of the current step; empty before the first.
    pub fn step_name(&self) -> (r: &'static str)
        ensures
            r@ == (match self.current_step {
                Some(s) => s.name(),
                None => ""@,
            }),
    {
        match self.current_step {
            Some(s) => s.as_str(),
            None => "",
        }
    }
}

/// What ends a wait of the idle timer.
#[derive(Debug, Clone, Copy, PartialEq, Eq, Structural)]
pub enum IdleEvent {
    /// The debounce window passed.
    Elapsed,
    /// The idle flag changed.
    Changed,
    /// The service is gone.
    Closed,
}

/// Whether the daemon exits: a change starts the wait anew, and the window
/// counts only while the service is idle.
pub fn idle_decision(idle: bool, event: IdleEvent) -> (r: bool)
    ensures
        r == (event is Closed || (event is Elapsed && idle)),
{
    match event {
        IdleEvent::Elapsed => idle,
        IdleEvent::Changed => false,
        IdleEvent::Closed => true,
    }
}

/// The service while an install that was let in reports these events.
pub open spec fn observed_all(s: Installer, events: Seq<EventView>) -> Installer
    decreases events.len(),
{
    if events.len() == 0 {
        s
    } else {
        observed(observed_all(s, events.drop_last()), events.last())
    }
}

/// Installs do not overlap: from the moment that one is let in, whatever it
/// reports, no other is, a cancel request reaches it and the idle timer is
/// held; once it has ended, another is let in again.
pub proof fn law_installs_do_not_overlap(events: Seq<EventView>, success: bool)
    ensures
        ({
            let during = observed_all(begun(), events);
            let after = finished(during, success);
            &&& during.wf() && !lets_in(during) && during.cancellable && !during.idle
            &&& after.wf() && lets_in(after) && !after.cancellable && after.idle
        }),
    decreases events.len(),
{
    if events.len() > 0 {
        law_installs_do_not_overlap(events.drop_last(), success);
    }
}

/// The service is busy exactly from the start of an install to its end: it
/// starts one when it is free, follows its steps, and ends as the install
/// did.
pub proof fn law_state_follows_the_install(s: Installer, e: EventView, success: bool)
    ensures
        lets_in(s) <==> s.state is Idle || s.state is Done || s.state is Error,
        begun().state is Running && begun().current_step is None && begun().cancellable
            && !begun().idle,
        finished(s, true).state is Done && finished(s, false).state is Error,
        finished(s, success).idle && !finished(s, success).cancellable,
        finished(s, success).current_step == s.current_step,
        e matches EventView::StepChanged { step, .. } ==> observed(s, e).current_step == Some(step),
        !(e is StepChanged) ==> observed(s, e) == s,
        observed(s, e).state == s.state && observed(s, e).cancellable == s.cancellable,
{
}

/// The caller of a failed install learns why: a cancelled one is told apart
/// from all others.
pub proof fn law_callers_learn_the_reason(step: Step, m: Seq<char>)
    ensures
        reply_text((Fault::Cancelled, m)) == "install cancelled by Cancel()"@,
        reply_text((Fault::InStep(step), m)) == step.name() + ": "@ + m,
        reply_text((Fault::InvalidSpec, m)) == "invalid spec: "@ + m,
{
}

} // verus!
