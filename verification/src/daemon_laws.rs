//! Laws of the daemon's course: what comes before what, what each happening leads to, and how a
//! daemon comes up and ends.

use crate::daemon;
use crate::daemon::{Action, ActionView, Course, Happening, HappeningView, OpenFailure, Phase};
use vstd::prelude::*;

verus! {

/// Where a daemon stands at its start.
pub open spec fn at_start(detach: bool, persist: bool) -> Course {
    Course { phase: Phase::Opening, detach, persist, serving: false }
}

/// Where a daemon stands once all of this has happened.
pub open spec fn after_all(course: Course, happenings: Seq<HappeningView>) -> Course
    decreases happenings.len(),
{
    if happenings.len() == 0 {
        course
    } else {
        daemon::next(after_all(course, happenings.drop_last()), happenings.last()).0
    }
}

/// A daemon that persists its state never reads a file before the state kept for it has been
/// recovered: it reads only when the recovery that it waits for is done.
pub proof fn law_state_is_recovered_before_reading(course: Course, happening: HappeningView)
    requires
        course.persist,
        daemon::next(course, happening).1 is Read,
    ensures
        course.phase == Phase::Recovering,
        happening is Recovered,
{
}

/// Nothing is recovered before it is known where the state is kept.
pub proof fn law_state_is_resolved_before_recovery(course: Course, happening: HappeningView)
    ensures
        daemon::next(course, happening).1 is Recover <==> course.phase == Phase::Resolving
            && happening is Resolved,
        daemon::next(course, happening).0.phase == Phase::Recovering ==> course.phase
            == Phase::Recovering || daemon::next(course, happening).1 is Recover,
{
}

/// Whether a file is to be taken up: no other daemon was found, the socket of a dead one was removed,
/// or the state of the file before has been dealt with.
pub open spec fn takes_up(phase: Phase, happening: HappeningView) -> bool {
    match phase {
        Phase::Probing => happening is NoSocket,
        Phase::Clearing => happening is Cleared,
        Phase::SavingToSwitch => happening is Saved || happening is SaveFailed,
        _ => false,
    }
}

/// A file is taken up the same way in every case: from the state kept for it, where the daemon
/// persists any, and by reading it from its beginning where not.
pub proof fn law_files_are_taken_up_alike(course: Course, happening: HappeningView)
    requires
        takes_up(course.phase, happening),
    ensures
        ({
            let (after, action) = daemon::next(course, happening);
            if course.persist {
                &&& after.phase == Phase::Resolving
                &&& action is Resolve || happening is SaveFailed && action is WarnAndResolve
            } else {
                &&& after.phase == Phase::Reading
                &&& action is Read
            }
        }),
{
}

/// Whether a phase is entered with an action.
pub open spec fn enters(action: ActionView, phase: Phase) -> bool {
    match action {
        ActionView::Detach => phase == Phase::Detaching,
        ActionView::Probe => phase == Phase::Probing,
        ActionView::HandOver => phase == Phase::HandingOver,
        ActionView::Clear => phase == Phase::Clearing,
        ActionView::Resolve => phase == Phase::Resolving,
        ActionView::WarnAndResolve(_) => phase == Phase::Resolving,
        ActionView::Recover => phase == Phase::Recovering,
        ActionView::Read => phase == Phase::Reading,
        ActionView::Bind => phase == Phase::Binding,
        ActionView::StartTasks => phase == Phase::Serving,
        ActionView::Serve => phase == Phase::Serving,
        ActionView::StopAndSave => phase == Phase::SavingToStop,
        ActionView::StopAllAndSave => phase == Phase::SavingToSwitch,
        ActionView::StopAll => phase == Phase::SavingToSwitch,
        ActionView::Finish(_) => phase == Phase::Done,
        ActionView::Quit => phase == Phase::Done,
        ActionView::Fail(_) => phase == Phase::Done,
        ActionView::Wait => true,
    }
}

/// Whether a happening is one that a phase waits for.
pub open spec fn is_awaited(phase: Phase, happening: HappeningView) -> bool {
    match phase {
        Phase::Opening => happening is Opened || happening is OpenFailed,
        Phase::Detaching => happening is Detached,
        Phase::Probing => happening is SocketFound || happening is NoSocket,
        Phase::HandingOver => happening is HandedOver || happening is HandoverFailed,
        Phase::Clearing => happening is Cleared,
        Phase::Resolving => happening is Resolved || happening is ResolveFailed,
        Phase::Recovering => happening is Recovered || happening is RecoverFailed,
        Phase::Reading => happening is FileRead || happening is ReadFailed,
        Phase::Binding => happening is Bound,
        Phase::Serving => happening is ClientArrived || happening is TaskEnded || happening is
            ShutdownRequested || happening is WatchRequested,
        Phase::SavingToStop => happening is Saved || happening is SaveFailed,
        Phase::SavingToSwitch => happening is Saved || happening is SaveFailed,
        Phase::Done => false,
    }
}

/// What a phase waits for is acted upon, and nothing else is: then the daemon stays where it is. What
/// it was started with never changes, and it serves from when its socket is open, to its end.
pub proof fn law_what_is_awaited_is_acted_upon(course: Course, happening: HappeningView)
    ensures
        ({
            let (after, action) = daemon::next(course, happening);
            &&& !(action is Wait) <==> is_awaited(course.phase, happening)
            &&& action is Wait ==> after == course
            &&& enters(action, after.phase)
            &&& after.detach == course.detach
            &&& after.persist == course.persist
            &&& after.serving <==> course.serving || course.phase == Phase::Binding
                && happening is Bound
        }),
{
}

/// A daemon goes to the background if that was asked for, and before anything else, and the one in
/// the foreground then ends; else it looks for a running daemon first.
pub proof fn law_detaching_comes_first(course: Course, happening: HappeningView)
    ensures
        daemon::next(course, happening).1 is Detach <==> course.phase == Phase::Opening
            && happening is Opened && course.detach,
        daemon::next(course, happening).1 is Probe <==> course.phase == Phase::Opening
            && happening is Opened && !course.detach,
        daemon::next(course, happening).1 is Quit <==> (course.phase == Phase::Detaching
            && happening is Detached) || (course.phase == Phase::HandingOver
            && happening is HandedOver),
{
}

/// There is one daemon: a file is handed over to one whose socket is found, and only a socket behind
/// which nothing answers is removed. A socket is opened once a daemon.
pub proof fn law_a_running_daemon_is_left_alone(course: Course, happening: HappeningView)
    ensures
        daemon::next(course, happening).1 is HandOver <==> course.phase == Phase::Probing
            && happening is SocketFound,
        daemon::next(course, happening).1 is Clear <==> course.phase == Phase::HandingOver
            && happening is HandoverFailed,
        daemon::next(course, happening).1 is Bind <==> course.phase == Phase::Reading
            && happening is FileRead && !course.serving,
        daemon::next(course, happening).1 is StartTasks <==> (course.phase == Phase::Reading
            && happening is FileRead && course.serving) || (course.phase == Phase::Binding
            && happening is Bound),
{
}

/// Whether a happening is a failure that a phase does not get over.
pub open spec fn is_fatal(phase: Phase, happening: HappeningView) -> bool {
    match phase {
        Phase::Opening => happening is OpenFailed,
        Phase::Resolving => happening is ResolveFailed,
        Phase::Recovering => happening is RecoverFailed,
        Phase::Reading => happening is ReadFailed,
        Phase::Serving => happening matches HappeningView::TaskEnded(_, Some(_)),
        _ => false,
    }
}

/// Whether a text ends in another.
pub open spec fn ends_in(text: Seq<char>, end: Seq<char>) -> bool {
    end.len() <= text.len() && text.skip(text.len() - end.len()) == end
}

/// What a failure is told by: the path of a file that is not there or not to be read, else the
/// error.
pub open spec fn told_by(happening: HappeningView) -> Seq<char> {
    match happening {
        HappeningView::OpenFailed(OpenFailure::Other, _, error) => error,
        HappeningView::OpenFailed(_, path, _) => path,
        HappeningView::ResolveFailed(_, error) => error,
        HappeningView::RecoverFailed(_, error) => error,
        HappeningView::ReadFailed(error) => error,
        HappeningView::TaskEnded(_, Some(error)) => error,
        HappeningView::SaveFailed(error) => error,
        _ => Seq::empty(),
    }
}

/// A daemon fails where something went wrong that it does not get over, and only there, and says so
/// last what it was. Failing to save is gone on from, with a warning.
pub proof fn law_failures_end_the_daemon(course: Course, happening: HappeningView)
    ensures
        ({
            let (after, action) = daemon::next(course, happening);
            &&& action is Fail <==> is_fatal(course.phase, happening)
            &&& action matches ActionView::Fail(said) ==> ends_in(said, told_by(happening))
            &&& action matches ActionView::WarnAndResolve(said) ==> ends_in(
                said,
                told_by(happening),
            )
            &&& action is WarnAndResolve <==> course.phase == Phase::SavingToSwitch
                && happening is SaveFailed && course.persist
            &&& action matches ActionView::Finish(said) ==> (said is Some <==> happening is
                SaveFailed)
            &&& action matches ActionView::Finish(Some(said)) ==> ends_in(said, told_by(happening))
        }),
{
    let action = daemon::next(course, happening).1;
    match action {
        ActionView::Fail(said) => {
            match happening {
                HappeningView::OpenFailed(failure, path, error) => match failure {
                    OpenFailure::NotFound => lemma_added_ends("File not found: "@, path),
                    OpenFailure::PermissionDenied => lemma_added_ends(
                        "Permission denied: "@,
                        path,
                    ),
                    OpenFailure::Other => lemma_added_ends("Unexpected error: "@, error),
                },
                HappeningView::ResolveFailed(path, error) => {
                    let what = "Failed to resolve data directory"@;
                    lemma_added_ends(what + ": "@, error);
                    lemma_added_ends(what + " for "@ + path + ": "@, error);
                },
                HappeningView::RecoverFailed(path, error) => {
                    let what = "Failed to recover persisted state"@;
                    lemma_added_ends(what + ": "@, error);
                    lemma_added_ends(what + " for "@ + path + ": "@, error);
                },
                HappeningView::ReadFailed(error) => lemma_added_ends("Tailer error: "@, error),
                HappeningView::TaskEnded(task, Some(error)) => {
                    lemma_added_ends("Tailer error: "@, error);
                    lemma_added_ends("Flush task error: "@, error);
                    lemma_added_ends("Checkpoint task error: "@, error);
                },
                _ => {},
            }
        },
        ActionView::WarnAndResolve(said) => {
            lemma_added_ends("Checkpoint before re-watch failed: "@, told_by(happening));
        },
        ActionView::Finish(Some(said)) => {
            lemma_added_ends("Final checkpoint failed: "@, told_by(happening));
        },
        _ => {},
    }
}

proof fn lemma_added_ends(start: Seq<char>, end: Seq<char>)
    ensures
        ends_in(start + end, end),
{
    assert((start + end).skip(start.len() as int) =~= end);
}

/// What goes wrong with the state of a file that was switched to is told with its path.
pub proof fn law_failures_name_a_file_that_was_switched_to(
    course: Course,
    path: Seq<char>,
    error: Seq<char>,
)
    requires
        course.serving,
    ensures
        course.phase == Phase::Resolving ==> (daemon::next(
            course,
            HappeningView::ResolveFailed(path, error),
        ).1 matches ActionView::Fail(said) && exists|before: Seq<char>, after: Seq<char>|
            said == #[trigger] (before + path + after)),
        course.phase == Phase::Recovering ==> (daemon::next(
            course,
            HappeningView::RecoverFailed(path, error),
        ).1 matches ActionView::Fail(said) && exists|before: Seq<char>, after: Seq<char>|
            said == #[trigger] (before + path + after)),
{
    let resolve = "Failed to resolve data directory"@ + " for "@;
    let recover = "Failed to recover persisted state"@ + " for "@;
    let after = ": "@ + error;
    assert(resolve + path + ": "@ + error =~= resolve + path + after);
    assert(recover + path + ": "@ + error =~= recover + path + after);
}

/// Clients are served while the daemon serves, and no client, whatever it does, moves the daemon.
pub proof fn law_clients_do_not_move_the_daemon(course: Course, happening: HappeningView)
    ensures
        daemon::next(course, HappeningView::ClientArrived).0 == course,
        daemon::next(course, happening).1 is Serve <==> course.phase == Phase::Serving
            && happening is ClientArrived,
{
}

/// A daemon ends well when it was asked to and has saved what it persists, as far as that can be, or
/// when a task has ended well; in no other case.
pub proof fn law_daemons_end_when_asked_to(course: Course, happening: HappeningView)
    ensures
        daemon::next(course, happening).1 is Finish <==> match course.phase {
            Phase::Serving => happening is ShutdownRequested && !course.persist || (happening
                matches HappeningView::TaskEnded(_, error) && error is None),
            Phase::SavingToStop => happening is Saved || happening is SaveFailed,
            _ => false,
        },
        daemon::next(course, happening).1 is StopAndSave <==> course.phase == Phase::Serving
            && happening is ShutdownRequested && course.persist,
        daemon::next(course, happening).1 is StopAllAndSave <==> course.phase == Phase::Serving
            && happening is WatchRequested && course.persist,
        daemon::next(course, happening).1 is StopAll <==> course.phase == Phase::Serving
            && happening is WatchRequested && !course.persist,
{
}

/// What happens until a daemon looks for the state of its file: no other daemon is found, or one that
/// is dead and whose socket is removed.
pub open spec fn found_alone(stale: bool) -> Seq<HappeningView> {
    let opened = Seq::<HappeningView>::empty().push(HappeningView::Opened);
    if stale {
        opened.push(HappeningView::SocketFound).push(HappeningView::HandoverFailed).push(
            HappeningView::Cleared,
        )
    } else {
        opened.push(HappeningView::NoSocket)
    }
}

/// What happens until a daemon serves, where nothing goes wrong.
pub open spec fn coming_up(persist: bool, stale: bool) -> Seq<HappeningView> {
    let ready = if persist {
        found_alone(stale).push(HappeningView::Resolved).push(HappeningView::Recovered)
    } else {
        found_alone(stale)
    };
    ready.push(HappeningView::FileRead).push(HappeningView::Bound)
}

/// One more happening.
proof fn lemma_one_more(course: Course, happenings: Seq<HappeningView>, happening: HappeningView)
    ensures
        after_all(course, happenings.push(happening)) == daemon::next(
            after_all(course, happenings),
            happening,
        ).0,
{
    assert(happenings.push(happening).drop_last() =~= happenings);
}

/// Where nothing goes wrong a daemon comes up, with its socket open: through its persisted state,
/// where it has any, whether or not a dead daemon has left its socket.
pub proof fn law_daemons_come_up(persist: bool, stale: bool)
    ensures
        after_all(at_start(false, persist), coming_up(persist, stale)) == (Course {
            phase: Phase::Serving,
            detach: false,
            persist,
            serving: true,
        }),
{
    let start = at_start(false, persist);
    let none = Seq::<HappeningView>::empty();
    let opened = none.push(HappeningView::Opened);
    lemma_one_more(start, none, HappeningView::Opened);
    let alone = found_alone(stale);
    if stale {
        let probed = opened.push(HappeningView::SocketFound);
        let refused = probed.push(HappeningView::HandoverFailed);
        lemma_one_more(start, opened, HappeningView::SocketFound);
        lemma_one_more(start, probed, HappeningView::HandoverFailed);
        lemma_one_more(start, refused, HappeningView::Cleared);
    } else {
        lemma_one_more(start, opened, HappeningView::NoSocket);
    }
    let ready = if persist {
        let resolved = alone.push(HappeningView::Resolved);
        lemma_one_more(start, alone, HappeningView::Resolved);
        lemma_one_more(start, resolved, HappeningView::Recovered);
        resolved.push(HappeningView::Recovered)
    } else {
        alone
    };
    lemma_one_more(start, ready, HappeningView::FileRead);
    lemma_one_more(start, ready.push(HappeningView::FileRead), HappeningView::Bound);
}

/// Whether a daemon reads a file, or has read one.
pub open spec fn has_taken_up(phase: Phase) -> bool {
    phase == Phase::Reading || phase == Phase::Binding || phase == Phase::Serving || phase
        == Phase::SavingToStop || phase == Phase::SavingToSwitch
}

/// However a daemon has come to read or serve: the file was there, no other daemon answered, and what
/// was persisted was resolved and recovered on the way. It serves only once the file was read and the
/// socket opened.
pub proof fn law_nothing_is_skipped(
    detach: bool,
    persist: bool,
    happenings: Seq<HappeningView>,
)
    ensures
        ({
            let course = after_all(at_start(detach, persist), happenings);
            &&& course.persist == persist && course.detach == detach
            &&& course.phase != Phase::Opening ==> happenings.contains(HappeningView::Opened) || (
            course.phase == Phase::Done)
            &&& has_taken_up(course.phase) ==> {
                &&& !detach
                &&& happenings.contains(HappeningView::Opened)
                &&& happenings.contains(HappeningView::NoSocket) || happenings.contains(
                    HappeningView::Cleared,
                )
                &&& persist ==> happenings.contains(HappeningView::Resolved)
                    && happenings.contains(HappeningView::Recovered)
            }
            &&& course.phase == Phase::Serving || course.serving ==> happenings.contains(
                HappeningView::FileRead,
            ) && happenings.contains(HappeningView::Bound)
        }),
    decreases happenings.len(),
{
    lemma_course_holds(detach, persist, happenings);
}

/// What has happened by the time that a daemon stands somewhere.
spec fn has_happened(course: Course, happenings: Seq<HappeningView>) -> bool {
    let opened = happenings.contains(HappeningView::Opened);
    let alone = happenings.contains(HappeningView::NoSocket) || happenings.contains(
        HappeningView::Cleared,
    );
    let resolved = happenings.contains(HappeningView::Resolved);
    let recovered = happenings.contains(HappeningView::Recovered);
    let read = happenings.contains(HappeningView::FileRead);
    let bound = happenings.contains(HappeningView::Bound);
    &&& course.phase != Phase::Opening && course.phase != Phase::Done ==> opened
    &&& course.phase != Phase::Opening && course.phase != Phase::Done && course.phase
        != Phase::Detaching ==> !course.detach
    &&& has_taken_up(course.phase) || course.phase == Phase::Resolving || course.phase
        == Phase::Recovering ==> alone
    &&& course.phase == Phase::Recovering ==> resolved
    &&& has_taken_up(course.phase) && course.persist ==> resolved && recovered
    &&& course.phase == Phase::Binding ==> read
    &&& course.serving ==> read && bound
    &&& course.phase == Phase::Serving || course.phase == Phase::SavingToStop || course.phase
        == Phase::SavingToSwitch ==> course.serving
}

proof fn lemma_course_holds(detach: bool, persist: bool, happenings: Seq<HappeningView>)
    ensures
        ({
            let course = after_all(at_start(detach, persist), happenings);
            &&& has_happened(course, happenings)
            &&& course.persist == persist
            &&& course.detach == detach
        }),
    decreases happenings.len(),
{
    if happenings.len() > 0 {
        let front = happenings.drop_last();
        let last = happenings.last();
        lemma_course_holds(detach, persist, front);
        assert forall|h: HappeningView| front.contains(h) implies happenings.contains(h) by {
            let i = front.index_of(h);
            assert(happenings[i] == h);
        }
        assert(happenings[happenings.len() - 1] == last);
        assert(happenings.contains(last));
    }
}

/// A happening is told apart from every other, and its texts are what they read.
pub proof fn law_happenings_are_seen_as_they_are(happening: Happening)
    ensures
        happening is Opened <==> happening@ is Opened,
        happening is Detached <==> happening@ is Detached,
        happening is SocketFound <==> happening@ is SocketFound,
        happening is NoSocket <==> happening@ is NoSocket,
        happening is HandedOver <==> happening@ is HandedOver,
        happening is HandoverFailed <==> happening@ is HandoverFailed,
        happening is Cleared <==> happening@ is Cleared,
        happening is Resolved <==> happening@ is Resolved,
        happening is Recovered <==> happening@ is Recovered,
        happening is FileRead <==> happening@ is FileRead,
        happening is Bound <==> happening@ is Bound,
        happening is ClientArrived <==> happening@ is ClientArrived,
        happening is ShutdownRequested <==> happening@ is ShutdownRequested,
        happening is WatchRequested <==> happening@ is WatchRequested,
        happening is Saved <==> happening@ is Saved,
        happening matches Happening::OpenFailed(failure, path, error) ==> happening@
            == HappeningView::OpenFailed(failure, path@, error@),
        happening matches Happening::ResolveFailed(path, error) ==> happening@
            == HappeningView::ResolveFailed(path@, error@),
        happening matches Happening::RecoverFailed(path, error) ==> happening@
            == HappeningView::RecoverFailed(path@, error@),
        happening matches Happening::ReadFailed(error) ==> happening@ == HappeningView::ReadFailed(
            error@,
        ),
        happening matches Happening::TaskEnded(task, Some(error)) ==> happening@
            == HappeningView::TaskEnded(task, Some(error@)),
        happening matches Happening::TaskEnded(task, None) ==> happening@
            == HappeningView::TaskEnded(task, None),
        happening matches Happening::SaveFailed(error) ==> happening@ == HappeningView::SaveFailed(
            error@,
        ),
{
}

/// An action is told apart from every other, and what it says is what it reads.
pub proof fn law_actions_are_seen_as_they_are(action: Action)
    ensures
        action is Detach <==> action@ is Detach,
        action is Probe <==> action@ is Probe,
        action is HandOver <==> action@ is HandOver,
        action is Clear <==> action@ is Clear,
        action is Resolve <==> action@ is Resolve,
        action is Recover <==> action@ is Recover,
        action is Read <==> action@ is Read,
        action is Bind <==> action@ is Bind,
        action is StartTasks <==> action@ is StartTasks,
        action is Serve <==> action@ is Serve,
        action is StopAndSave <==> action@ is StopAndSave,
        action is StopAllAndSave <==> action@ is StopAllAndSave,
        action is StopAll <==> action@ is StopAll,
        action is Quit <==> action@ is Quit,
        action is Wait <==> action@ is Wait,
        action matches Action::WarnAndResolve(said) ==> action@ == ActionView::WarnAndResolve(
            said@,
        ),
        action matches Action::Finish(Some(said)) ==> action@ == ActionView::Finish(Some(said@)),
        action matches Action::Finish(None) ==> action@ == ActionView::Finish(None),
        action matches Action::Fail(said) ==> action@ == ActionView::Fail(said@),
{
}

} // verus!
