use padd::thread_pool::{MuxAction, MuxPhase, WorkerMux, WorkerReport, WorkerStatus};

#[test]
fn mux_waits_for_idle_workers() {
    let mux = WorkerMux::new(2);
    assert_eq!(mux.next_action(), MuxAction::AwaitReport);
}

#[test]
fn mux_dispatches_to_most_recently_idle_worker() {
    let mut mux = WorkerMux::new(2);
    mux.on_report(WorkerReport { id: 0, status: WorkerStatus::Idle });
    mux.on_report(WorkerReport { id: 1, status: WorkerStatus::Idle });
    assert_eq!(mux.next_action(), MuxAction::AwaitSignal);
    assert_eq!(mux.on_signal(true), MuxAction::RunJob(1));
    assert_eq!(mux.next_action(), MuxAction::AwaitSignal);
    assert_eq!(mux.on_signal(true), MuxAction::RunJob(0));
    assert_eq!(mux.next_action(), MuxAction::AwaitReport);
}

#[test]
fn mux_terminates_after_every_worker_stops() {
    let mut mux = WorkerMux::new(2);
    mux.on_report(WorkerReport { id: 0, status: WorkerStatus::Idle });
    assert_eq!(mux.on_signal(false), MuxAction::TerminateWorkers);
    assert_eq!(mux.next_action(), MuxAction::AwaitReport);
    mux.on_report(WorkerReport { id: 1, status: WorkerStatus::Idle });
    assert_eq!(mux.next_action(), MuxAction::AwaitReport);
    mux.on_report(WorkerReport { id: 0, status: WorkerStatus::Term });
    assert_eq!(mux.next_action(), MuxAction::AwaitReport);
    mux.on_report(WorkerReport { id: 1, status: WorkerStatus::Term });
    assert_eq!(mux.next_action(), MuxAction::Finish);
    let _ = MuxPhase::Dispatching;
}
