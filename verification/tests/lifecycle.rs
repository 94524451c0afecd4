use modrun::error::Error;
use modrun::lifecycle::{LifecycleState, Phase};

fn drain_stops(lc: &mut LifecycleState) -> Vec<usize> {
    let mut order = Vec::new();
    while let Some(i) = lc.take_next_stop() {
        order.push(i);
    }
    order
}

#[test]
fn hooks_start_in_order_and_stop_in_reverse() {
    let mut lc = LifecycleState::new();
    lc.append("a", true, true).unwrap();
    lc.append("b", true, true).unwrap();
    lc.append("c", true, true).unwrap();
    lc.begin_start();
    let mut started = Vec::new();
    while let Some(i) = lc.next_start() {
        started.push(i);
        lc.start_succeeded(i);
    }
    assert_eq!(started, vec![0, 1, 2]);
    assert_eq!(lc.phase(), Phase::Started);
    assert_eq!(lc.begin_stopping(), 3);
    assert_eq!(drain_stops(&mut lc), vec![2, 1, 0]);
    assert_eq!(lc.pending_stops(), 0);
}

#[test]
fn append_is_rejected_after_start_and_while_stopping() {
    let mut lc = LifecycleState::new();
    lc.begin_start();
    lc.append("during-start", true, true).unwrap();
    assert_eq!(lc.next_start(), Some(0));
    lc.start_succeeded(0);
    assert_eq!(lc.next_start(), None);
    assert!(matches!(lc.append("late", true, true), Err(Error::AppendAfterStart)));
    lc.begin_stopping();
    assert!(matches!(lc.append("late", true, true), Err(Error::AppendWhileStopping)));
    assert_eq!(lc.len(), 1);
}

#[test]
fn failed_start_runs_stop_only_after_unstarted_hooks() {
    let mut lc = LifecycleState::new();
    lc.append("fails", true, true).unwrap();
    lc.append("never", true, true).unwrap();
    lc.append("stop-only", false, true).unwrap();
    lc.begin_start();
    assert_eq!(lc.next_start(), Some(0));
    lc.prepare_for_unwind();
    assert_eq!(lc.begin_stopping(), 3);
    assert_eq!(drain_stops(&mut lc), vec![2]);
}

#[test]
fn prepare_for_unwind_runs_stop_only_after_unstarted_hooks() {
    let mut lc = LifecycleState::new();
    lc.append("start-and-stop", true, true).unwrap();
    lc.append("stop-only", false, true).unwrap();
    lc.prepare_for_unwind();
    assert_eq!(drain_stops(&mut lc), vec![1]);
}

#[test]
fn stop_only_hooks_count_as_started() {
    let mut lc = LifecycleState::new();
    lc.append("stop-only", false, true).unwrap();
    lc.append("start-only", true, false).unwrap();
    lc.append("both", true, true).unwrap();
    lc.begin_start();
    assert_eq!(lc.next_start(), Some(1));
    lc.start_succeeded(1);
    assert_eq!(lc.next_start(), Some(2));
    lc.start_succeeded(2);
    assert_eq!(lc.next_start(), None);
    assert_eq!(drain_stops(&mut lc), vec![2, 0]);
}

#[test]
fn stop_guard_writes_back_cancelled_on_stop() {
    let mut lc = LifecycleState::new();
    lc.append("slow", false, true).unwrap();
    lc.prepare_for_unwind();
    assert_eq!(lc.take_next_stop(), Some(0));
    lc.stop_cancelled(0);
    assert_eq!(lc.pending_stops(), 1);
    assert!(lc.slot(0).present);
    assert_eq!(lc.take_next_stop(), Some(0));
    assert_eq!(lc.take_next_stop(), None);
}

#[test]
fn successful_start_runs_each_start_hook_once_and_skips_stop_only_hooks() {
    let mut lc = LifecycleState::new();
    lc.append("a", true, true).unwrap();
    lc.append("stop-only", false, true).unwrap();
    lc.append("b", true, false).unwrap();
    lc.begin_start();
    let mut started = Vec::new();
    while let Some(i) = lc.next_start() {
        started.push(i);
        lc.start_succeeded(i);
    }
    assert_eq!(started, vec![0, 2]);
    assert_eq!(lc.phase(), Phase::Started);
    assert!(lc.slot(0).present && lc.slot(1).present && lc.slot(2).present);
    assert!(matches!(lc.append("late", true, true), Err(Error::AppendAfterStart)));
}
