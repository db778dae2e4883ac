//! Becoming a daemon, one system call at a time.
use vstd::prelude::*;

verus! {

/// The descriptor of the standard input.
pub const STDIN: i32 = 0;

/// The descriptor of the standard output.
pub const STDOUT: i32 = 1;

/// The descriptor of the standard error output.
pub const STDERR: i32 = 2;

/// What to do next.
#[derive(Clone, Copy, Debug, PartialEq, Eq, Structural)]
pub enum DaemonAction {
    /// Fork, and tell which of the two processes this is.
    Fork,
    /// Leave the process with success.
    Exit,
    /// Start a session of its own.
    StartSession,
    /// Change to the root directory.
    ChangeToRoot,
    /// Close a descriptor.
    Close(i32),
    /// Open the null device for reading and writing, and tell under which descriptor.
    OpenNull,
    /// Duplicate a descriptor, and tell under which other one.
    Duplicate(i32),
    /// Nothing more: this process is the daemon.
    Finish,
    /// Give up: a standard stream came up under another descriptor than its own.
    Fail { expected: i32, actual: i32 },
}

/// What came of an action.
#[derive(Clone, Copy, Debug, PartialEq, Eq, Structural)]
pub enum DaemonReply {
    /// This is the process that forked.
    Parent,
    /// This is the new process.
    Child,
    /// It is done.
    Done,
    /// It is done, and this is the new descriptor.
    Descriptor(i32),
}

/// How far it has come.
#[derive(Clone, Copy, Debug, PartialEq, Eq, Structural)]
pub enum Stage {
    FirstFork,
    Session,
    Directory,
    CloseInput,
    CloseOutput,
    CloseError,
    OpenInput,
    OpenOutput,
    OpenError,
    SecondFork,
    Daemon,
    Parent,
    WrongDescriptor { expected: i32, actual: i32 },
}

impl Stage {
    /// What is done at a stage.
    pub open spec fn what_to_do(self) -> DaemonAction {
        match self {
            Stage::FirstFork => DaemonAction::Fork,
            Stage::Session => DaemonAction::StartSession,
            Stage::Directory => DaemonAction::ChangeToRoot,
            Stage::CloseInput => DaemonAction::Close(STDIN),
            Stage::CloseOutput => DaemonAction::Close(STDOUT),
            Stage::CloseError => DaemonAction::Close(STDERR),
            Stage::OpenInput => DaemonAction::OpenNull,
            Stage::OpenOutput => DaemonAction::Duplicate(STDIN),
            Stage::OpenError => DaemonAction::Duplicate(STDIN),
            Stage::SecondFork => DaemonAction::Fork,
            Stage::Daemon => DaemonAction::Finish,
            Stage::Parent => DaemonAction::Exit,
            Stage::WrongDescriptor { expected, actual } => DaemonAction::Fail { expected, actual },
        }
    }

    /// Whether what is done at a stage can come to this.
    pub open spec fn may_reply(self, reply: DaemonReply) -> bool {
        match self.what_to_do() {
            DaemonAction::Fork => reply is Parent || reply is Child,
            DaemonAction::OpenNull | DaemonAction::Duplicate(_) => reply is Descriptor,
            DaemonAction::Exit | DaemonAction::Finish | DaemonAction::Fail { .. } => false,
            _ => reply is Done,
        }
    }

    /// The stage that follows: the process that forked is left, and a standard stream that comes
    /// up under another descriptor than its own is an error.
    pub open spec fn following(self, reply: DaemonReply) -> Stage {
        match (self, reply) {
            (Stage::FirstFork, DaemonReply::Child) => Stage::Session,
            (Stage::Session, _) => Stage::Directory,
            (Stage::Directory, _) => Stage::CloseInput,
            (Stage::CloseInput, _) => Stage::CloseOutput,
            (Stage::CloseOutput, _) => Stage::CloseError,
            (Stage::CloseError, _) => Stage::OpenInput,
            (Stage::OpenInput, DaemonReply::Descriptor(actual)) => if actual == STDIN {
                Stage::OpenOutput
            } else {
                Stage::WrongDescriptor { expected: STDIN, actual }
            },
            (Stage::OpenOutput, DaemonReply::Descriptor(actual)) => if actual == STDOUT {
                Stage::OpenError
            } else {
                Stage::WrongDescriptor { expected: STDOUT, actual }
            },
            (Stage::OpenError, DaemonReply::Descriptor(actual)) => if actual == STDERR {
                Stage::SecondFork
            } else {
                Stage::WrongDescriptor { expected: STDERR, actual }
            },
            (Stage::SecondFork, DaemonReply::Child) => Stage::Daemon,
            (Stage::FirstFork, _) | (Stage::SecondFork, _) => Stage::Parent,
            _ => self,
        }
    }

    /// What is done at a stage.
    pub fn action(&self) -> (action: DaemonAction)
        ensures
            action == self.what_to_do(),
    {
        match *self {
            Stage::FirstFork => DaemonAction::Fork,
            Stage::Session => DaemonAction::StartSession,
            Stage::Directory => DaemonAction::ChangeToRoot,
            Stage::CloseInput => DaemonAction::Close(STDIN),
            Stage::CloseOutput => DaemonAction::Close(STDOUT),
            Stage::CloseError => DaemonAction::Close(STDERR),
            Stage::OpenInput => DaemonAction::OpenNull,
            Stage::OpenOutput => DaemonAction::Duplicate(STDIN),
            Stage::OpenError => DaemonAction::Duplicate(STDIN),
            Stage::SecondFork => DaemonAction::Fork,
            Stage::Daemon => DaemonAction::Finish,
            Stage::Parent => DaemonAction::Exit,
            Stage::WrongDescriptor { expected, actual } => DaemonAction::Fail { expected, actual },
        }
    }

    /// The stage that follows when what is done at this one came to the given reply.
    pub fn next(&self, reply: DaemonReply) -> (stage: Stage)
        ensures
            stage == self.following(reply),
    {
        match *self {
            Stage::FirstFork => match reply {
                DaemonReply::Child => Stage::Session,
                _ => Stage::Parent,
            },
            Stage::Session => Stage::Directory,
            Stage::Directory => Stage::CloseInput,
            Stage::CloseInput => Stage::CloseOutput,
            Stage::CloseOutput => Stage::CloseError,
            Stage::CloseError => Stage::OpenInput,
            Stage::OpenInput => self.check_descriptor(reply, STDIN, Stage::OpenOutput),
            Stage::OpenOutput => self.check_descriptor(reply, STDOUT, Stage::OpenError),
            Stage::OpenError => self.check_descriptor(reply, STDERR, Stage::SecondFork),
            Stage::SecondFork => match reply {
                DaemonReply::Child => Stage::Daemon,
                _ => Stage::Parent,
            },
            other => other,
        }
    }
    /// The stage that follows where a standard stream is to come up under its own descriptor. A
    /// reply without a descriptor leaves the stage as it is.
    fn check_descriptor(&self, reply: DaemonReply, expected: i32, followed_by: Stage) -> (stage:
        Stage)
        ensures
            stage == (match reply {
                DaemonReply::Descriptor(actual) => if actual == expected {
                    followed_by
                } else {
                    Stage::WrongDescriptor { expected, actual }
                },
                _ => *self,
            }),
    {
        match reply {
            DaemonReply::Descriptor(actual) => {
                if actual == expected {
                    followed_by
                } else {
                    Stage::WrongDescriptor { expected, actual }
                }
            },
            _ => *self,
        }
    }
}

/// What matters about a process.
pub struct Process {
    /// Whether it is in a session of its own.
    pub own_session: bool,
    /// Whether it leads its session.
    pub leads_session: bool,
    /// Whether its directory is the root directory.
    pub in_root: bool,
    /// The descriptors that are open on the null device.
    pub null: Set<i32>,
}

impl Process {
    /// What an action with the given reply makes of the process that goes on.
    pub open spec fn after(self, action: DaemonAction, reply: DaemonReply) -> Process {
        match (action, reply) {
            (DaemonAction::Fork, DaemonReply::Child) => Process { leads_session: false, ..self },
            (DaemonAction::StartSession, _) => Process {
                own_session: true,
                leads_session: true,
                ..self
            },
            (DaemonAction::ChangeToRoot, _) => Process { in_root: true, ..self },
            (DaemonAction::Close(descriptor), _) => Process {
                null: self.null.remove(descriptor),
                ..self
            },
            (DaemonAction::OpenNull, DaemonReply::Descriptor(descriptor)) => Process {
                null: self.null.insert(descriptor),
                ..self
            },
            (DaemonAction::Duplicate(from), DaemonReply::Descriptor(descriptor)) => Process {
                null: if self.null.contains(from) {
                    self.null.insert(descriptor)
                } else {
                    self.null.remove(descriptor)
                },
                ..self
            },
            _ => self,
        }
    }

    /// The process after what is done from a stage on came to the given replies.
    pub open spec fn after_all(self, stage: Stage, replies: Seq<DaemonReply>) -> Process
        decreases replies.len(),
    {
        if replies.len() == 0 {
            self
        } else {
            self.after(stage.what_to_do(), replies[0]).after_all(
                stage.following(replies[0]),
                replies.drop_first(),
            )
        }
    }

    /// What holds of the process when a stage is reached.
    pub open spec fn reached(self, stage: Stage) -> bool {
        match stage {
            Stage::FirstFork | Stage::Session => true,
            Stage::Directory => self.own_session,
            Stage::CloseInput | Stage::CloseOutput | Stage::CloseError | Stage::OpenInput => {
                self.own_session && self.in_root
            },
            Stage::OpenOutput => self.own_session && self.in_root && self.null.contains(STDIN),
            Stage::OpenError => self.own_session && self.in_root && self.null.contains(STDIN)
                && self.null.contains(STDOUT),
            Stage::SecondFork => self.own_session && self.in_root && self.null.contains(STDIN)
                && self.null.contains(STDOUT) && self.null.contains(STDERR),
            Stage::Daemon => self.own_session && !self.leads_session && self.in_root
                && self.null.contains(STDIN) && self.null.contains(STDOUT) && self.null.contains(
                STDERR,
            ),
            Stage::Parent | Stage::WrongDescriptor { .. } => true,
        }
    }
}

/// The stage that is reached by the given replies.
pub open spec fn stage_after(stage: Stage, replies: Seq<DaemonReply>) -> Stage
    decreases replies.len(),
{
    if replies.len() == 0 {
        stage
    } else {
        stage_after(stage.following(replies[0]), replies.drop_first())
    }
}

/// Whether these replies can come one after the other.
pub open spec fn may_come(stage: Stage, replies: Seq<DaemonReply>) -> bool
    decreases replies.len(),
{
    replies.len() > 0 ==> stage.may_reply(replies[0]) && may_come(
        stage.following(replies[0]),
        replies.drop_first(),
    )
}

proof fn lemma_reached(process: Process, stage: Stage, replies: Seq<DaemonReply>)
    requires
        process.reached(stage),
        may_come(stage, replies),
    ensures
        process.after_all(stage, replies).reached(stage_after(stage, replies)),
    decreases replies.len(),
{
    if replies.len() > 0 {
        lemma_reached(
            process.after(stage.what_to_do(), replies[0]),
            stage.following(replies[0]),
            replies.drop_first(),
        );
    }
}

/// Whatever comes of the single steps, a process that becomes the daemon is in a session of its
/// own that it does not lead, its directory is the root directory, and its standard streams are
/// the null device.
pub proof fn law_daemon_is_detached(process: Process, replies: Seq<DaemonReply>)
    requires
        may_come(Stage::FirstFork, replies),
        stage_after(Stage::FirstFork, replies) == Stage::Daemon,
    ensures
        ({
            let daemon = process.after_all(Stage::FirstFork, replies);
            &&& daemon.own_session
            &&& !daemon.leads_session
            &&& daemon.in_root
            &&& daemon.null.contains(STDIN)
            &&& daemon.null.contains(STDOUT)
            &&& daemon.null.contains(STDERR)
        }),
{
    lemma_reached(process, Stage::FirstFork, replies);
}

/// The steps that are left from a stage on.
pub open spec fn steps_left(stage: Stage) -> nat {
    match stage {
        Stage::FirstFork => 10,
        Stage::Session => 9,
        Stage::Directory => 8,
        Stage::CloseInput => 7,
        Stage::CloseOutput => 6,
        Stage::CloseError => 5,
        Stage::OpenInput => 4,
        Stage::OpenOutput => 3,
        Stage::OpenError => 2,
        Stage::SecondFork => 1,
        Stage::Daemon | Stage::Parent | Stage::WrongDescriptor { .. } => 0,
    }
}

/// Every step leaves fewer of them.
pub proof fn law_daemon_comes_to_an_end(stage: Stage, reply: DaemonReply)
    requires
        stage.may_reply(reply),
    ensures
        steps_left(stage.following(reply)) < steps_left(stage),
{
}

/// The process that forked leaves with success, and only the new process goes on.
pub proof fn law_only_the_child_goes_on(stage: Stage, reply: DaemonReply)
    requires
        stage.what_to_do() is Fork,
    ensures
        !(reply is Child) ==> stage.following(reply).what_to_do() is Exit,
        reply is Child ==> !(stage.following(reply).what_to_do() is Exit),
        reply is Child ==> !(stage.following(reply).what_to_do() is Fail),
{
}

/// A standard stream that comes up under another descriptor than the next one in order is an error
/// that names both, whichever descriptor it is. Under its own it is none.
pub proof fn law_wrong_descriptor_is_an_error(stage: Stage, actual: i32)
    requires
        stage.what_to_do() is OpenNull || stage.what_to_do() is Duplicate,
    ensures
        ({
            let expected: i32 = match stage {
                Stage::OpenInput => 0,
                Stage::OpenOutput => 1,
                _ => 2,
            };
            let next = stage.following(DaemonReply::Descriptor(actual)).what_to_do();
            &&& actual != expected ==> next == DaemonAction::Fail { expected, actual }
            &&& actual == expected ==> !(next is Fail) && !(next is Exit)
        }),
{
}

/// As long as it is not told under which descriptor a standard stream came up, it is asked for again.
pub proof fn law_descriptor_is_waited_for(stage: Stage, reply: DaemonReply)
    requires
        stage.what_to_do() is OpenNull || stage.what_to_do() is Duplicate,
        !(reply is Descriptor),
    ensures
        stage.following(reply) == stage,
{
}

/// What is done with no reply that matters is followed by the same, whatever the reply.
pub proof fn law_plain_steps_have_one_outcome(stage: Stage, one: DaemonReply, other: DaemonReply)
    requires
        stage.may_reply(DaemonReply::Done),
    ensures
        stage.following(one) == stage.following(other),
        steps_left(stage.following(one)) + 1 == steps_left(stage),
{
}

/// A process that has left, failed or become the daemon does nothing else, whatever the reply.
pub proof fn law_the_end_is_final(stage: Stage, reply: DaemonReply)
    requires
        stage.what_to_do() is Exit || stage.what_to_do() is Finish || stage.what_to_do() is Fail,
    ensures
        stage.following(reply) == stage,
{
}

/// Whether a reply is what a process that becomes the daemon gets.
pub open spec fn goes_well(stage: Stage, reply: DaemonReply) -> bool {
    match stage {
        Stage::FirstFork | Stage::SecondFork => reply is Child,
        Stage::OpenInput => reply == DaemonReply::Descriptor(0),
        Stage::OpenOutput => reply == DaemonReply::Descriptor(1),
        Stage::OpenError => reply == DaemonReply::Descriptor(2),
        _ => reply is Done,
    }
}

/// As long as all goes well, every step brings the process nearer to being the daemon, and with no
/// steps left it is.
pub proof fn law_daemon_is_reached(stage: Stage, reply: DaemonReply)
    requires
        stage.may_reply(reply),
        goes_well(stage, reply),
    ensures
        steps_left(stage.following(reply)) + 1 == steps_left(stage),
        steps_left(stage.following(reply)) == 0 ==> stage.following(reply).what_to_do() is Finish,
{
}

/// The three standard streams are closed before any is opened again, so that they come up under
/// their own descriptors.
pub proof fn law_streams_are_closed_first(replies: Seq<DaemonReply>)
    requires
        may_come(Stage::FirstFork, replies),
        stage_after(Stage::FirstFork, replies).what_to_do() is OpenNull,
    ensures
        closed_after(Stage::FirstFork, replies).contains(0),
        closed_after(Stage::FirstFork, replies).contains(1),
        closed_after(Stage::FirstFork, replies).contains(2),
{
    lemma_closed(Set::empty(), Stage::FirstFork, replies);
}

/// The descriptors that are closed on the way.
pub open spec fn closed_after(stage: Stage, replies: Seq<DaemonReply>) -> Set<i32>
    decreases replies.len(),
{
    if replies.len() == 0 {
        Set::empty()
    } else {
        let rest = closed_after(stage.following(replies[0]), replies.drop_first());
        match stage.what_to_do() {
            DaemonAction::Close(descriptor) => rest.insert(descriptor),
            _ => rest,
        }
    }
}

proof fn lemma_closed(closed: Set<i32>, stage: Stage, replies: Seq<DaemonReply>)
    requires
        may_come(stage, replies),
        stage_after(stage, replies).what_to_do() is OpenNull,
        steps_left(stage) < 7 ==> closed.contains(0),
        steps_left(stage) < 6 ==> closed.contains(1),
        steps_left(stage) < 5 ==> closed.contains(2),
    ensures
        forall|d: i32|
            0 <= d <= 2 ==> closed.contains(d) || #[trigger] closed_after(stage, replies).contains(
                d,
            ),
    decreases replies.len(),
{
    if replies.len() > 0 {
        let next = stage.following(replies[0]);
        let now = match stage.what_to_do() {
            DaemonAction::Close(descriptor) => closed.insert(descriptor),
            _ => closed,
        };
        if steps_left(next) < 4 {
            lemma_past_opening(next, replies.drop_first());
        } else {
            lemma_closed(now, next, replies.drop_first());
            assert forall|d: i32| 0 <= d <= 2 implies closed.contains(d)
                || #[trigger] closed_after(stage, replies).contains(d) by {
                assert(now.contains(d) || closed_after(next, replies.drop_first()).contains(d));
            }
        }
    }
}

proof fn lemma_past_opening(stage: Stage, replies: Seq<DaemonReply>)
    requires
        may_come(stage, replies),
        steps_left(stage) < 4,
    ensures
        !(stage_after(stage, replies).what_to_do() is OpenNull),
    decreases replies.len(),
{
    if replies.len() > 0 {
        lemma_past_opening(stage.following(replies[0]), replies.drop_first());
    }
}

} // verus!
