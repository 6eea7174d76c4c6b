//! The daemon's course from start to end: what it does next, by what has happened.

use crate::text;
use vstd::prelude::*;

verus! {

/// Where the daemon stands.
#[derive(Debug, PartialEq, Eq, Clone, Copy, Structural)]
pub enum Phase {
    /// The file to watch is being opened.
    Opening,
    /// A daemon in the background is being started.
    Detaching,
    /// The socket of another daemon is being looked for.
    Probing,
    /// Another daemon is being asked to watch the file.
    HandingOver,
    /// The socket that a dead daemon left is being removed.
    Clearing,
    /// The directory of the persisted state is being determined.
    Resolving,
    /// The persisted state is being recovered.
    Recovering,
    /// What the file holds already is being read.
    Reading,
    /// The socket is being opened.
    Binding,
    /// Clients are served.
    Serving,
    /// The state is being saved before the end.
    SavingToStop,
    /// The state is being saved before another file is watched.
    SavingToSwitch,
    /// Nothing is left to do.
    Done,
}

/// The daemon's state.
#[derive(Debug, PartialEq, Eq, Clone, Copy, Structural)]
pub struct Course {
    pub phase: Phase,
    /// Whether to go on in the background.
    pub detach: bool,
    /// Whether state is persisted.
    pub persist: bool,
    /// Whether the socket is open, so that a file is switched to rather than started with.
    pub serving: bool,
}

/// Why a file could not be opened.
#[derive(Debug, PartialEq, Eq, Clone, Copy, Structural)]
pub enum OpenFailure {
    NotFound,
    PermissionDenied,
    Other,
}

/// A task that runs beside the others.
#[derive(Debug, PartialEq, Eq, Clone, Copy, Structural)]
pub enum Task {
    Tailer,
    Flush,
    Checkpoint,
}

/// What has happened.
#[derive(Debug, PartialEq, Eq)]
pub enum Happening {
    Opened,
    /// The file at this path could not be opened, with this error.
    OpenFailed(OpenFailure, String, String),
    Detached,
    SocketFound,
    NoSocket,
    HandedOver,
    HandoverFailed,
    Cleared,
    Resolved,
    /// The directory for the file at this path could not be determined, with this error.
    ResolveFailed(String, String),
    Recovered,
    /// The state of the file at this path could not be recovered, with this error.
    RecoverFailed(String, String),
    FileRead,
    ReadFailed(String),
    Bound,
    ClientArrived,
    /// A task ended, with this error or none.
    TaskEnded(Task, Option<String>),
    ShutdownRequested,
    WatchRequested,
    Saved,
    SaveFailed(String),
}

/// What a [`Happening`] holds.
pub enum HappeningView {
    Opened,
    OpenFailed(OpenFailure, Seq<char>, Seq<char>),
    Detached,
    SocketFound,
    NoSocket,
    HandedOver,
    HandoverFailed,
    Cleared,
    Resolved,
    ResolveFailed(Seq<char>, Seq<char>),
    Recovered,
    RecoverFailed(Seq<char>, Seq<char>),
    FileRead,
    ReadFailed(Seq<char>),
    Bound,
    ClientArrived,
    TaskEnded(Task, Option<Seq<char>>),
    ShutdownRequested,
    WatchRequested,
    Saved,
    SaveFailed(Seq<char>),
}

impl View for Happening {
    type V = HappeningView;

    open spec fn view(&self) -> HappeningView {
        match self {
            Happening::Opened => HappeningView::Opened,
            Happening::OpenFailed(failure, path, error) => HappeningView::OpenFailed(
                *failure,
                path@,
                error@,
            ),
            Happening::Detached => HappeningView::Detached,
            Happening::SocketFound => HappeningView::SocketFound,
            Happening::NoSocket => HappeningView::NoSocket,
            Happening::HandedOver => HappeningView::HandedOver,
            Happening::HandoverFailed => HappeningView::HandoverFailed,
            Happening::Cleared => HappeningView::Cleared,
            Happening::Resolved => HappeningView::Resolved,
            Happening::ResolveFailed(path, error) => HappeningView::ResolveFailed(path@, error@),
            Happening::Recovered => HappeningView::Recovered,
            Happening::RecoverFailed(path, error) => HappeningView::RecoverFailed(path@, error@),
            Happening::FileRead => HappeningView::FileRead,
            Happening::ReadFailed(error) => HappeningView::ReadFailed(error@),
            Happening::Bound => HappeningView::Bound,
            Happening::ClientArrived => HappeningView::ClientArrived,
            Happening::TaskEnded(task, error) => HappeningView::TaskEnded(
                *task,
                match error {
                    Some(error) => Some(error@),
                    None => None,
                },
            ),
            Happening::ShutdownRequested => HappeningView::ShutdownRequested,
            Happening::WatchRequested => HappeningView::WatchRequested,
            Happening::Saved => HappeningView::Saved,
            Happening::SaveFailed(error) => HappeningView::SaveFailed(error@),
        }
    }
}

/// What to do next.
#[derive(Debug, PartialEq, Eq)]
pub enum Action {
    /// Start the program again in the background.
    Detach,
    /// Look for the socket.
    Probe,
    /// Ask the running daemon to watch the file.
    HandOver,
    /// Remove the socket.
    Clear,
    /// Determine the directory of the persisted state.
    Resolve,
    /// Recover the persisted state.
    Recover,
    /// Read what the file holds already; a malformed line is an error.
    Read,
    /// Open the socket.
    Bind,
    /// Start tailing, flushing and checkpointing, and wait.
    StartTasks,
    /// Serve the client in a task of its own, and wait.
    Serve,
    /// Stop flushing and checkpointing, and save the state.
    StopAndSave,
    /// Stop tailing, flushing and checkpointing, and save the state.
    StopAllAndSave,
    /// Stop tailing, and keep no state.
    StopAll,
    /// Say this and go on: determine the directory of the persisted state.
    WarnAndResolve(String),
    /// Remove the socket and end, having said this, if anything.
    Finish(Option<String>),
    /// End without an error.
    Quit,
    /// Say this and end with an error.
    Fail(String),
    /// Nothing.
    Wait,
}

/// What an [`Action`] holds.
pub enum ActionView {
    Detach,
    Probe,
    HandOver,
    Clear,
    Resolve,
    Recover,
    Read,
    Bind,
    StartTasks,
    Serve,
    StopAndSave,
    StopAllAndSave,
    StopAll,
    WarnAndResolve(Seq<char>),
    Finish(Option<Seq<char>>),
    Quit,
    Fail(Seq<char>),
    Wait,
}

impl View for Action {
    type V = ActionView;

    open spec fn view(&self) -> ActionView {
        match self {
            Action::Detach => ActionView::Detach,
            Action::Probe => ActionView::Probe,
            Action::HandOver => ActionView::HandOver,
            Action::Clear => ActionView::Clear,
            Action::Resolve => ActionView::Resolve,
            Action::Recover => ActionView::Recover,
            Action::Read => ActionView::Read,
            Action::Bind => ActionView::Bind,
            Action::StartTasks => ActionView::StartTasks,
            Action::Serve => ActionView::Serve,
            Action::StopAndSave => ActionView::StopAndSave,
            Action::StopAllAndSave => ActionView::StopAllAndSave,
            Action::StopAll => ActionView::StopAll,
            Action::WarnAndResolve(said) => ActionView::WarnAndResolve(said@),
            Action::Finish(said) => ActionView::Finish(
                match said {
                    Some(said) => Some(said@),
                    None => None,
                },
            ),
            Action::Quit => ActionView::Quit,
            Action::Fail(said) => ActionView::Fail(said@),
            Action::Wait => ActionView::Wait,
        }
    }
}

/// What is said of a file that could not be opened.
pub open spec fn open_failure_text(
    failure: OpenFailure,
    path: Seq<char>,
    error: Seq<char>,
) -> Seq<char> {
    match failure {
        OpenFailure::NotFound => "File not found: "@ + path,
        OpenFailure::PermissionDenied => "Permission denied: "@ + path,
        OpenFailure::Other => "Unexpected error: "@ + error,
    }
}

/// What is said of an error, and of the file where that is not the one that was started with.
pub open spec fn about_file(said: Seq<char>, serving: bool, path: Seq<char>, error: Seq<char>)
    -> Seq<char> {
    if serving {
        said + " for "@ + path + ": "@ + error
    } else {
        said + ": "@ + error
    }
}

/// What is said of a task that failed.
pub open spec fn task_failure_text(task: Task, error: Seq<char>) -> Seq<char> {
    match task {
        Task::Tailer => "Tailer error: "@ + error,
        Task::Flush => "Flush task error: "@ + error,
        Task::Checkpoint => "Checkpoint task error: "@ + error,
    }
}

/// How a file is taken up: from its persisted state, where there is any, else by reading it.
pub open spec fn take_up(course: Course) -> (Course, ActionView) {
    if course.persist {
        (Course { phase: Phase::Resolving, ..course }, ActionView::Resolve)
    } else {
        (Course { phase: Phase::Reading, ..course }, ActionView::Read)
    }
}

/// The end with an error.
pub open spec fn failed(course: Course, said: Seq<char>) -> (Course, ActionView) {
    (Course { phase: Phase::Done, ..course }, ActionView::Fail(said))
}

/// The end of a daemon that has served.
pub open spec fn finished(course: Course, said: Option<Seq<char>>) -> (Course, ActionView) {
    (Course { phase: Phase::Done, ..course }, ActionView::Finish(said))
}

/// What the daemon does next, by where it stands and what has happened.
pub open spec fn next(course: Course, happening: HappeningView) -> (Course, ActionView) {
    match (course.phase, happening) {
        (Phase::Opening, HappeningView::Opened) => if course.detach {
            (Course { phase: Phase::Detaching, ..course }, ActionView::Detach)
        } else {
            (Course { phase: Phase::Probing, ..course }, ActionView::Probe)
        },
        (Phase::Opening, HappeningView::OpenFailed(failure, path, error)) => failed(
            course,
            open_failure_text(failure, path, error),
        ),
        (Phase::Detaching, HappeningView::Detached) => (
            Course { phase: Phase::Done, ..course },
            ActionView::Quit,
        ),
        (Phase::Probing, HappeningView::SocketFound) => (
            Course { phase: Phase::HandingOver, ..course },
            ActionView::HandOver,
        ),
        (Phase::Probing, HappeningView::NoSocket) => take_up(course),
        (Phase::HandingOver, HappeningView::HandedOver) => (
            Course { phase: Phase::Done, ..course },
            ActionView::Quit,
        ),
        (Phase::HandingOver, HappeningView::HandoverFailed) => (
            Course { phase: Phase::Clearing, ..course },
            ActionView::Clear,
        ),
        (Phase::Clearing, HappeningView::Cleared) => take_up(course),
        (Phase::Resolving, HappeningView::Resolved) => (
            Course { phase: Phase::Recovering, ..course },
            ActionView::Recover,
        ),
        (Phase::Resolving, HappeningView::ResolveFailed(path, error)) => failed(
            course,
            about_file("Failed to resolve data directory"@, course.serving, path, error),
        ),
        (Phase::Recovering, HappeningView::Recovered) => (
            Course { phase: Phase::Reading, ..course },
            ActionView::Read,
        ),
        (Phase::Recovering, HappeningView::RecoverFailed(path, error)) => failed(
            course,
            about_file("Failed to recover persisted state"@, course.serving, path, error),
        ),
        (Phase::Reading, HappeningView::FileRead) => if course.serving {
            (Course { phase: Phase::Serving, ..course }, ActionView::StartTasks)
        } else {
            (Course { phase: Phase::Binding, ..course }, ActionView::Bind)
        },
        (Phase::Reading, HappeningView::ReadFailed(error)) => failed(
            course,
            task_failure_text(Task::Tailer, error),
        ),
        (Phase::Binding, HappeningView::Bound) => (
            Course { phase: Phase::Serving, serving: true, ..course },
            ActionView::StartTasks,
        ),
        (Phase::Serving, HappeningView::ClientArrived) => (course, ActionView::Serve),
        (Phase::Serving, HappeningView::TaskEnded(task, error)) => match error {
            Some(error) => failed(course, task_failure_text(task, error)),
            None => finished(course, None),
        },
        (Phase::Serving, HappeningView::ShutdownRequested) => if course.persist {
            (Course { phase: Phase::SavingToStop, ..course }, ActionView::StopAndSave)
        } else {
            finished(course, None)
        },
        (Phase::Serving, HappeningView::WatchRequested) => (
            Course { phase: Phase::SavingToSwitch, ..course },
            if course.persist {
                ActionView::StopAllAndSave
            } else {
                ActionView::StopAll
            },
        ),
        (Phase::SavingToStop, HappeningView::Saved) => finished(course, None),
        (Phase::SavingToStop, HappeningView::SaveFailed(error)) => finished(
            course,
            Some("Final checkpoint failed: "@ + error),
        ),
        (Phase::SavingToSwitch, HappeningView::Saved) => take_up(course),
        (Phase::SavingToSwitch, HappeningView::SaveFailed(error)) => if course.persist {
            (
                Course { phase: Phase::Resolving, ..course },
                ActionView::WarnAndResolve("Checkpoint before re-watch failed: "@ + error),
            )
        } else {
            take_up(course)
        },
        _ => (course, ActionView::Wait),
    }
}

impl Course {
    /// The start of a daemon: the file is to be opened.
    pub fn new(detach: bool, persist: bool) -> (r: Course)
        ensures
            r == (Course { phase: Phase::Opening, detach, persist, serving: false }),
    {
        Course { phase: Phase::Opening, detach, persist, serving: false }
    }

    fn go(&mut self, phase: Phase)
        ensures
            *final(self) == (Course { phase, ..*old(self) }),
    {
        self.phase = phase;
    }

    fn take_up(&mut self) -> (r: Action)
        ensures
            (*final(self), r@) == take_up(*old(self)),
    {
        if self.persist {
            self.go(Phase::Resolving);
            Action::Resolve
        } else {
            self.go(Phase::Reading);
            Action::Read
        }
    }

    fn fail(&mut self, said: String) -> (r: Action)
        ensures
            (*final(self), r@) == failed(*old(self), said@),
    {
        self.go(Phase::Done);
        Action::Fail(said)
    }

    fn finish(&mut self, said: Option<String>) -> (r: Action)
        ensures
            (*final(self), r@) == finished(
                *old(self),
                match said {
                    Some(said) => Some(said@),
                    None => None,
                },
            ),
    {
        self.go(Phase::Done);
        Action::Finish(said)
    }

    /// Takes note of what has happened, and tells what to do next.
    pub fn run_daemon(&mut self, happening: Happening) -> (r: Action)
        ensures
            (*final(self), r@) == next(*old(self), happening@),
    {
        match (self.phase, happening) {
            (Phase::Opening, Happening::Opened) => if self.detach {
                self.go(Phase::Detaching);
                Action::Detach
            } else {
                self.go(Phase::Probing);
                Action::Probe
            },
            (Phase::Opening, Happening::OpenFailed(failure, path, error)) => {
                let said = match failure {
                    OpenFailure::NotFound => text::concat2("File not found: ", path.as_str()),
                    OpenFailure::PermissionDenied => text::concat2(
                        "Permission denied: ",
                        path.as_str(),
                    ),
                    OpenFailure::Other => text::concat2("Unexpected error: ", error.as_str()),
                };
                self.fail(said)
            },
            (Phase::Detaching, Happening::Detached) => {
                self.go(Phase::Done);
                Action::Quit
            },
            (Phase::Probing, Happening::SocketFound) => {
                self.go(Phase::HandingOver);
                Action::HandOver
            },
            (Phase::Probing, Happening::NoSocket) => self.take_up(),
            (Phase::HandingOver, Happening::HandedOver) => {
                self.go(Phase::Done);
                Action::Quit
            },
            (Phase::HandingOver, Happening::HandoverFailed) => {
                self.go(Phase::Clearing);
                Action::Clear
            },
            (Phase::Clearing, Happening::Cleared) => self.take_up(),
            (Phase::Resolving, Happening::Resolved) => {
                self.go(Phase::Recovering);
                Action::Recover
            },
            (Phase::Resolving, Happening::ResolveFailed(path, error)) => {
                let said = say_about_file(
                    "Failed to resolve data directory",
                    self.serving,
                    path.as_str(),
                    error.as_str(),
                );
                self.fail(said)
            },
            (Phase::Recovering, Happening::Recovered) => {
                self.go(Phase::Reading);
                Action::Read
            },
            (Phase::Recovering, Happening::RecoverFailed(path, error)) => {
                let said = say_about_file(
                    "Failed to recover persisted state",
                    self.serving,
                    path.as_str(),
                    error.as_str(),
                );
                self.fail(said)
            },
            (Phase::Reading, Happening::FileRead) => if self.serving {
                self.go(Phase::Serving);
                Action::StartTasks
            } else {
                self.go(Phase::Binding);
                Action::Bind
            },
            (Phase::Reading, Happening::ReadFailed(error)) => {
                let said = say_of_task(Task::Tailer, error.as_str());
                self.fail(said)
            },
            (Phase::Binding, Happening::Bound) => {
                self.go(Phase::Serving);
                self.serving = true;
                Action::StartTasks
            },
            (Phase::Serving, Happening::ClientArrived) => Action::Serve,
            (Phase::Serving, Happening::TaskEnded(task, error)) => match error {
                Some(error) => {
                    let said = say_of_task(task, error.as_str());
                    self.fail(said)
                },
                None => self.finish(None),
            },
            (Phase::Serving, Happening::ShutdownRequested) => if self.persist {
                self.go(Phase::SavingToStop);
                Action::StopAndSave
            } else {
                self.finish(None)
            },
            (Phase::Serving, Happening::WatchRequested) => {
                self.go(Phase::SavingToSwitch);
                if self.persist {
                    Action::StopAllAndSave
                } else {
                    Action::StopAll
                }
            },
            (Phase::SavingToStop, Happening::Saved) => self.finish(None),
            (Phase::SavingToStop, Happening::SaveFailed(error)) => {
                let said = text::concat2("Final checkpoint failed: ", error.as_str());
                self.finish(Some(said))
            },
            (Phase::SavingToSwitch, Happening::Saved) => self.take_up(),
            (Phase::SavingToSwitch, Happening::SaveFailed(error)) => if self.persist {
                self.go(Phase::Resolving);
                Action::WarnAndResolve(
                    text::concat2("Checkpoint before re-watch failed: ", error.as_str()),
                )
            } else {
                self.take_up()
            },
            _ => Action::Wait,
        }
    }
}

fn say_of_task(task: Task, error: &str) -> (r: String)
    ensures
        r@ == task_failure_text(task, error@),
{
    match task {
        Task::Tailer => text::concat2("Tailer error: ", error),
        Task::Flush => text::concat2("Flush task error: ", error),
        Task::Checkpoint => text::concat2("Checkpoint task error: ", error),
    }
}

fn say_about_file(said: &str, serving: bool, path: &str, error: &str) -> (r: String)
    ensures
        r@ == about_file(said@, serving, path@, error@),
{
    if serving {
        let mut text = text::concat(said, " for ", path);
        text.append(": ");
        text.append(error);
        text
    } else {
        text::concat(said, ": ", error)
    }
}

/// The socket opens only once what the file holds has been read.
pub proof fn law_socket_opens_after_reading(course: Course, happening: HappeningView)
    requires
        next(course, happening).1 is Bind,
    ensures
        course.phase == Phase::Reading,
        happening is FileRead,
{
}

/// A daemon that persists its state never ends on request without having tried to save it: a request
/// to stop leads to saving, and only once that is over, well or not, the daemon ends.
pub proof fn law_stopping_saves_first(course: Course, after: HappeningView)
    requires
        course.phase == Phase::Serving,
        course.persist,
    ensures
        ({
            let (saving, action) = next(course, HappeningView::ShutdownRequested);
            &&& action is StopAndSave
            &&& next(saving, after).1 is Finish <==> after is Saved || after is SaveFailed
            &&& !(after is Saved || after is SaveFailed) ==> next(saving, after) == (
                saving,
                ActionView::Wait,
            )
        }),
{
}

/// Another file is taken up only once the state of the one before has been saved, as far as that
/// can be, and then the daemon goes on with the socket open.
pub proof fn law_switching_saves_first(course: Course, after: HappeningView)
    requires
        course.phase == Phase::Serving,
        course.persist,
    ensures
        ({
            let (saving, action) = next(course, HappeningView::WatchRequested);
            &&& action is StopAllAndSave
            &&& saving.serving == course.serving
            &&& next(saving, after).0.phase == Phase::Resolving <==> after is Saved
                || after is SaveFailed
        }),
{
}

/// A daemon that is done stays done.
pub proof fn law_done_is_final(course: Course, happening: HappeningView)
    requires
        course.phase == Phase::Done,
    ensures
        next(course, happening) == (course, ActionView::Wait),
{
}

/// Without persistence no state is resolved, recovered or saved.
pub proof fn law_without_persistence_nothing_is_saved(course: Course, happening: HappeningView)
    requires
        !course.persist,
        course.phase != Phase::Resolving,
        course.phase != Phase::Recovering,
    ensures
        ({
            let (after, action) = next(course, happening);
            &&& !(action is Resolve || action is Recover || action is StopAndSave
                || action is StopAllAndSave || action is WarnAndResolve)
            &&& after.phase != Phase::Resolving && after.phase != Phase::Recovering
            &&& !after.persist
        }),
{
}

} // verus!
