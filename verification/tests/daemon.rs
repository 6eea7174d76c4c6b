use vigil::daemon::{Action, Course, Happening, OpenFailure, Phase, Task};

fn walk(course: &mut Course, happenings: Vec<Happening>) -> Vec<Action> {
    happenings.into_iter().map(|h| course.run_daemon(h)).collect()
}

fn started(persist: bool) -> Course {
    let mut course = Course::new(false, persist);
    walk(&mut course, vec![Happening::Opened, Happening::NoSocket]);
    if persist {
        walk(&mut course, vec![Happening::Resolved, Happening::Recovered]);
    }
    walk(&mut course, vec![Happening::FileRead, Happening::Bound]);
    assert_eq!(course.phase, Phase::Serving);
    course
}

#[test]
fn a_daemon_starts_step_by_step() {
    let mut course = Course::new(false, true);
    assert_eq!(
        walk(
            &mut course,
            vec![
                Happening::Opened,
                Happening::NoSocket,
                Happening::Resolved,
                Happening::Recovered,
                Happening::FileRead,
                Happening::Bound,
                Happening::ClientArrived,
            ],
        ),
        vec![
            Action::Probe,
            Action::Resolve,
            Action::Recover,
            Action::Read,
            Action::Bind,
            Action::StartTasks,
            Action::Serve,
        ]
    );
}

#[test]
fn a_running_daemon_takes_the_file_over() {
    let mut course = Course::new(false, true);
    assert_eq!(
        walk(
            &mut course,
            vec![Happening::Opened, Happening::SocketFound, Happening::HandedOver],
        ),
        vec![Action::Probe, Action::HandOver, Action::Quit]
    );
}

#[test]
fn a_stale_socket_is_removed() {
    let mut course = Course::new(false, false);
    assert_eq!(
        walk(
            &mut course,
            vec![
                Happening::Opened,
                Happening::SocketFound,
                Happening::HandoverFailed,
                Happening::Cleared,
            ],
        ),
        vec![Action::Probe, Action::HandOver, Action::Clear, Action::Read]
    );
}

#[test]
fn a_daemon_goes_to_the_background() {
    let mut course = Course::new(true, true);
    assert_eq!(
        walk(&mut course, vec![Happening::Opened, Happening::Detached]),
        vec![Action::Detach, Action::Quit]
    );
    assert_eq!(course.phase, Phase::Done);
}

#[test]
fn failures_to_open_are_told_apart() {
    for (failure, said) in [
        (OpenFailure::NotFound, "File not found: app.log"),
        (OpenFailure::PermissionDenied, "Permission denied: app.log"),
        (OpenFailure::Other, "Unexpected error: broken"),
    ] {
        let mut course = Course::new(false, true);
        let happening = Happening::OpenFailed(failure, "app.log".into(), "broken".into());
        assert_eq!(course.run_daemon(happening), Action::Fail(said.into()));
    }
}

#[test]
fn a_malformed_file_fails_the_start() {
    let mut course = Course::new(false, false);
    walk(&mut course, vec![Happening::Opened, Happening::NoSocket]);
    assert_eq!(
        course.run_daemon(Happening::ReadFailed("line 1 is not valid JSON".into())),
        Action::Fail("Tailer error: line 1 is not valid JSON".into())
    );
}

#[test]
fn failures_name_the_file_that_was_switched_to() {
    let mut course = Course::new(false, true);
    walk(&mut course, vec![Happening::Opened, Happening::NoSocket]);
    assert_eq!(
        course.run_daemon(Happening::ResolveFailed("a.log".into(), "no HOME".into())),
        Action::Fail("Failed to resolve data directory: no HOME".into())
    );
    let mut course = started(true);
    walk(&mut course, vec![Happening::WatchRequested, Happening::Saved]);
    assert_eq!(
        course.run_daemon(Happening::ResolveFailed("b.log".into(), "gone".into())),
        Action::Fail("Failed to resolve data directory for b.log: gone".into())
    );
    let mut course = started(true);
    walk(
        &mut course,
        vec![Happening::WatchRequested, Happening::Saved, Happening::Resolved],
    );
    assert_eq!(
        course.run_daemon(Happening::RecoverFailed("b.log".into(), "bad".into())),
        Action::Fail("Failed to recover persisted state for b.log: bad".into())
    );
}

#[test]
fn stopping_saves_first() {
    let mut course = started(true);
    assert_eq!(
        walk(&mut course, vec![Happening::ShutdownRequested, Happening::Saved]),
        vec![Action::StopAndSave, Action::Finish(None)]
    );
    let mut course = started(true);
    walk(&mut course, vec![Happening::ShutdownRequested]);
    assert_eq!(
        course.run_daemon(Happening::SaveFailed("full".into())),
        Action::Finish(Some("Final checkpoint failed: full".into()))
    );
    assert_eq!(course.run_daemon(Happening::ClientArrived), Action::Wait);
}

#[test]
fn stopping_without_persistence_just_ends() {
    let mut course = started(false);
    assert_eq!(course.run_daemon(Happening::ShutdownRequested), Action::Finish(None));
}

#[test]
fn switching_saves_and_takes_up_the_other_file() {
    let mut course = started(true);
    assert_eq!(
        walk(
            &mut course,
            vec![
                Happening::WatchRequested,
                Happening::Saved,
                Happening::Resolved,
                Happening::Recovered,
                Happening::FileRead,
            ],
        ),
        vec![
            Action::StopAllAndSave,
            Action::Resolve,
            Action::Recover,
            Action::Read,
            Action::StartTasks,
        ]
    );
    assert_eq!(course.phase, Phase::Serving);
    walk(&mut course, vec![Happening::WatchRequested]);
    assert_eq!(
        course.run_daemon(Happening::SaveFailed("full".into())),
        Action::WarnAndResolve("Checkpoint before re-watch failed: full".into())
    );
}

#[test]
fn switching_without_persistence_reads_the_other_file() {
    let mut course = started(false);
    assert_eq!(
        walk(
            &mut course,
            vec![Happening::WatchRequested, Happening::Saved, Happening::FileRead],
        ),
        vec![Action::StopAll, Action::Read, Action::StartTasks]
    );
}

#[test]
fn a_task_that_ends_ends_the_daemon() {
    for (task, said) in [
        (Task::Tailer, "Tailer error: e"),
        (Task::Flush, "Flush task error: e"),
        (Task::Checkpoint, "Checkpoint task error: e"),
    ] {
        let mut course = started(true);
        assert_eq!(
            course.run_daemon(Happening::TaskEnded(task, Some("e".into()))),
            Action::Fail(said.into())
        );
        let mut course = started(true);
        assert_eq!(
            course.run_daemon(Happening::TaskEnded(task, None)),
            Action::Finish(None)
        );
    }
}
