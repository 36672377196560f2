use io_uring_rm::removal::run::{EXIT_INTERRUPTED, EXIT_SUCCESS};
use io_uring_rm::removal::{Action, Arguments, CancellationSignal, Phase, Run, Stage};

#[test]
fn run_goes_through_files_then_directories() {
    let mut run = Run::new();
    assert_eq!(run.phase(), Phase::Files);
    assert_eq!(run.next_action(false), Action::FetchFiles);
    assert!(run.chunk_fetched(3));
    assert_eq!(run.stage(), Stage::InFlight);
    run.batch_drained();
    assert_eq!(run.next_action(false), Action::FetchFiles);
    assert!(!run.chunk_fetched(0));
    assert_eq!(run.phase(), Phase::Directories);
    assert_eq!(run.next_action(false), Action::FetchDirectories);
    assert!(run.chunk_fetched(2));
    run.batch_drained();
    assert_eq!(run.next_action(false), Action::FetchDirectories);
    assert!(!run.chunk_fetched(0));
    assert_eq!(run.phase(), Phase::Completed);
    assert_eq!(run.next_action(false), Action::Exit(EXIT_SUCCESS));
    assert_eq!(run.next_action(true), Action::Exit(EXIT_SUCCESS));
}

#[test]
fn stop_between_batches_ends_the_run() {
    let mut run = Run::new();
    assert_eq!(run.next_action(false), Action::FetchFiles);
    assert!(run.chunk_fetched(5));
    // The batch in flight is drained before the latch is read.
    run.batch_drained();
    assert_eq!(run.next_action(true), Action::Exit(EXIT_INTERRUPTED));
    assert_eq!(run.phase(), Phase::Interrupted);
    assert_eq!(run.stage(), Stage::Between);
    assert_eq!(run.next_action(false), Action::Exit(EXIT_INTERRUPTED));
}

#[test]
fn stop_during_directories_ends_the_run() {
    let mut run = Run::new();
    assert_eq!(run.next_action(false), Action::FetchFiles);
    assert!(!run.chunk_fetched(0));
    assert_eq!(run.next_action(true), Action::Exit(EXIT_INTERRUPTED));
    assert_eq!(run.phase(), Phase::Interrupted);
}

#[test]
fn latch_is_shared_and_one_way() {
    let latch = CancellationSignal::new();
    let listener = latch.handle();
    assert!(!latch.is_stopped());
    listener.trip();
    assert!(latch.is_stopped());
    listener.trip();
    assert!(latch.is_stopped());
}

#[test]
fn arguments_default_to_batches_of_five() {
    let a = Arguments::new("some/root".to_string());
    assert_eq!(a.root, "some/root");
    assert!(!a.confirm);
    assert_eq!(a.batch_size, 5);
    assert!(!a.testing);
}
