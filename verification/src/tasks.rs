//! The tasks of the program, and which of their ends shut it down.
use vstd::prelude::*;

verus! {

/// How a task came to its end.
///
/// One task waits for signals, one for errors, one follows the events of the sound server, and
/// one runs the windows.
#[derive(Clone, Copy, Debug, PartialEq, Eq, Structural)]
pub enum TaskEnd {
    /// The signal to interrupt the program was received.
    Interrupted,
    /// The signal to terminate the program was received.
    Terminated,
    /// Signals are no longer waited for, as the program is shutting down.
    SignalsCancelled,
    /// An error was received.
    ErrorReceived,
    /// No errors can be received any more.
    ErrorsClosed,
    /// Errors are no longer waited for, as the program is shutting down.
    ErrorsCancelled,
    /// The events could not be followed further.
    SubscriptionFailed,
    /// The events are no longer followed, as the program is shutting down.
    SubscriptionCancelled,
    /// The windows are gone.
    ApplicationStopped,
    /// The windows could not be brought up.
    ApplicationFailed,
}

/// Whether the end of a task shuts the program down: a signal, an error, the loss of the events
/// and the loss of the windows do. Windows that never came up do not: the program goes on without
/// them.
pub open spec fn shuts_down(end: TaskEnd) -> bool {
    match end {
        TaskEnd::Interrupted | TaskEnd::Terminated => true,
        TaskEnd::ErrorReceived => true,
        TaskEnd::SubscriptionFailed => true,
        TaskEnd::ApplicationStopped => true,
        TaskEnd::SignalsCancelled | TaskEnd::ErrorsCancelled | TaskEnd::SubscriptionCancelled
        | TaskEnd::ErrorsClosed | TaskEnd::ApplicationFailed => false,
    }
}

/// Whether the end of a task shuts the program down.
pub fn starts_shutdown(end: TaskEnd) -> (answer: bool)
    ensures
        answer == shuts_down(end),
{
    match end {
        TaskEnd::Interrupted => true,
        TaskEnd::Terminated => true,
        TaskEnd::ErrorReceived => true,
        TaskEnd::SubscriptionFailed => true,
        TaskEnd::ApplicationStopped => true,
        _ => false,
    }
}

/// Which tasks are running, and whether the program is shutting down.
pub struct Program {
    pub cancelled: bool,
    pub signals: bool,
    pub errors: bool,
    pub subscription: bool,
    pub application: bool,
}

impl Program {
    /// All tasks have been started.
    pub open spec fn started() -> Program {
        Program {
            cancelled: false,
            signals: true,
            errors: true,
            subscription: true,
            application: true,
        }
    }

    /// Whether a task can come to this end: it is running, and the ends that come of shutting
    /// down only occur when the program is. Errors come from the windows, which let go of that
    /// task as soon as they are given up or cannot be brought up, and so before their own task has
    /// ended.
    pub open spec fn may_end(self, end: TaskEnd) -> bool {
        match end {
            TaskEnd::Interrupted | TaskEnd::Terminated => self.signals,
            TaskEnd::SignalsCancelled => self.signals && self.cancelled,
            TaskEnd::ErrorReceived => self.errors,
            TaskEnd::ErrorsClosed => self.errors,
            TaskEnd::ErrorsCancelled => self.errors && self.cancelled,
            TaskEnd::SubscriptionFailed => self.subscription,
            TaskEnd::SubscriptionCancelled => self.subscription && self.cancelled,
            TaskEnd::ApplicationStopped | TaskEnd::ApplicationFailed => self.application,
        }
    }

    /// The program after the end of a task.
    pub open spec fn after(self, end: TaskEnd) -> Program {
        let ended = match end {
            TaskEnd::Interrupted | TaskEnd::Terminated | TaskEnd::SignalsCancelled => Program {
                signals: false,
                ..self
            },
            TaskEnd::ErrorReceived | TaskEnd::ErrorsClosed | TaskEnd::ErrorsCancelled => Program {
                errors: false,
                ..self
            },
            TaskEnd::SubscriptionFailed | TaskEnd::SubscriptionCancelled => Program {
                subscription: false,
                ..self
            },
            TaskEnd::ApplicationStopped | TaskEnd::ApplicationFailed => Program {
                application: false,
                ..self
            },
        };
        Program { cancelled: self.cancelled || shuts_down(end), ..ended }
    }

    /// Unless the program is shutting down, signals are waited for and events are followed.
    pub open spec fn whole(self) -> bool {
        self.cancelled || (self.signals && self.subscription)
    }

    /// The program after tasks have come to their ends, one after the other.
    pub open spec fn after_all(self, ends: Seq<TaskEnd>) -> Program
        decreases ends.len(),
    {
        if ends.len() == 0 {
            self
        } else {
            self.after(ends[0]).after_all(ends.drop_first())
        }
    }

    /// Whether tasks can come to these ends, one after the other.
    pub open spec fn may_end_all(self, ends: Seq<TaskEnd>) -> bool
        decreases ends.len(),
    {
        ends.len() > 0 ==> self.may_end(ends[0]) && self.after(ends[0]).may_end_all(
            ends.drop_first(),
        )
    }
}

proof fn lemma_stays_whole(program: Program, ends: Seq<TaskEnd>)
    requires
        program.whole(),
        program.may_end_all(ends),
    ensures
        program.after_all(ends).whole(),
        (program.cancelled || program.application) && !ends.contains(TaskEnd::ApplicationFailed)
            ==> program.after_all(ends).cancelled || program.after_all(ends).application,
    decreases ends.len(),
{
    if ends.len() > 0 {
        let rest = ends.drop_first();
        lemma_stays_whole(program.after(ends[0]), rest);
        if !ends.contains(TaskEnd::ApplicationFailed) {
            assert(ends[0] != TaskEnd::ApplicationFailed);
            assert forall|i: int| 0 <= i < rest.len() implies rest[i]
                != TaskEnd::ApplicationFailed by {
                assert(rest[i] == ends[i + 1]);
            }
        }
    }
}

/// As soon as the task that waits for signals or the one that follows the events has come to its
/// end, the program is shutting down.
pub proof fn law_no_task_is_left_alone(ends: Seq<TaskEnd>)
    requires
        Program::started().may_end_all(ends),
    ensures
        ({
            let program = Program::started().after_all(ends);
            program.cancelled || (program.signals && program.subscription)
        }),
{
    lemma_stays_whole(Program::started(), ends);
}

/// Unless the windows could not be brought up, the program is shutting down as soon as they are
/// gone.
pub proof fn law_lost_windows_shut_down(ends: Seq<TaskEnd>)
    requires
        Program::started().may_end_all(ends),
        !ends.contains(TaskEnd::ApplicationFailed),
    ensures
        ({
            let program = Program::started().after_all(ends);
            program.cancelled || program.application
        }),
{
    lemma_stays_whole(Program::started(), ends);
}

/// Whatever else has happened, windows that stop shut the program down, and windows that cannot be
/// brought up leave it as it was.
pub proof fn law_windows_that_stop_or_fail(program: Program)
    ensures
        program.after(TaskEnd::ApplicationStopped).cancelled,
        program.after(TaskEnd::ApplicationFailed).cancelled == program.cancelled,
{
}

/// When the program is shutting down, every task that is still running can come to its end.
pub proof fn law_shutdown_ends_every_task(program: Program)
    requires
        program.cancelled,
    ensures
        program.signals ==> program.may_end(TaskEnd::SignalsCancelled),
        program.errors ==> program.may_end(TaskEnd::ErrorsCancelled),
        program.subscription ==> program.may_end(TaskEnd::SubscriptionCancelled),
        program.application ==> program.may_end(TaskEnd::ApplicationStopped),
{
}

} // verus!
