use sozu_lib::master::{Answer, RunState, Supervisor, WorkerRecord};

fn workers() -> Vec<WorkerRecord> {
    vec![
        WorkerRecord { id: 0, pid: 100, run_state: RunState::Running },
        WorkerRecord { id: 1, pid: 101, run_state: RunState::Stopped },
        WorkerRecord { id: 2, pid: 102, run_state: RunState::Running },
    ]
}

#[test]
fn order_goes_to_running_workers_and_completes() {
    let mut s = Supervisor::new(workers());
    let (ids, answer) = s.broadcast(b"ID_ABCD".to_vec());
    assert_eq!(ids, vec![0, 2]);
    assert_eq!(answer, None);
    assert_eq!(s.pending.len(), 1);
    assert_eq!(s.on_answer(b"ID_ABCD", 0, true), None);
    assert_eq!(s.pending[0].waiting, vec![2]);
    assert_eq!(s.on_answer(b"ID_ABCD", 2, true), Some(Answer::Success));
    assert!(s.pending.is_empty());
    assert_eq!(s.on_answer(b"ID_ABCD", 2, true), None);
}

#[test]
fn a_failed_reply_fails_the_order() {
    let mut s = Supervisor::new(workers());
    s.broadcast(b"ID_EFGH".to_vec());
    assert_eq!(s.on_answer(b"ID_EFGH", 2, false), None);
    assert_eq!(s.on_answer(b"ID_EFGH", 0, true), Some(Answer::Failure));
}

#[test]
fn worker_exit_decays_pending_orders() {
    let mut s = Supervisor::new(workers());
    s.broadcast(b"A".to_vec());
    s.broadcast(b"B".to_vec());
    assert_eq!(s.on_answer(b"A", 0, true), None);
    let done = s.on_worker_exit(2);
    assert_eq!(done, vec![(b"A".to_vec(), Answer::Success)]);
    assert_eq!(s.pending.len(), 1);
    assert_eq!(s.pending[0].waiting, vec![0]);
    assert_eq!(s.workers[2].run_state, RunState::Stopped);
    assert_eq!(s.workers[0].run_state, RunState::Running);
}

#[test]
fn order_with_no_running_worker_is_answered_at_once() {
    let mut s = Supervisor::new(vec![WorkerRecord { id: 3, pid: 7, run_state: RunState::Stopping }]);
    let (ids, answer) = s.broadcast(b"X".to_vec());
    assert!(ids.is_empty());
    assert_eq!(answer, Some(Answer::Success));
    assert!(s.pending.is_empty());
}
