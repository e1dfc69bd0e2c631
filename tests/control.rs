use chat_server::control::{AcceptOutcome, ControlLoop, PollDecision};
use chat_server::handler::ActionType::{ClientConnect, ClientDisconnect};
use chat_server::handler::{Action, ActionType};

fn act(client: u64, action_type: ActionType) -> Action {
    Action { client, action_type }
}

#[test]
fn no_pending_connection_polls_idle_until_one_arrives() {
    let mut l = ControlLoop::new();
    for _ in 0..5 {
        assert_eq!(l.on_poll(AcceptOutcome::NoneReady), PollDecision::Idle);
    }
    assert_eq!(l.on_poll(AcceptOutcome::Accepted), PollDecision::Spawn(0));
    assert_eq!(l.on_poll(AcceptOutcome::NoneReady), PollDecision::Idle);
}

#[test]
fn accepted_connections_get_distinct_identities() {
    let mut l = ControlLoop::new();
    assert_eq!(l.on_poll(AcceptOutcome::Accepted), PollDecision::Spawn(0));
    assert_eq!(l.on_poll(AcceptOutcome::Failed), PollDecision::ReportFailure);
    assert_eq!(l.on_poll(AcceptOutcome::Accepted), PollDecision::Spawn(1));
    assert_eq!(l.on_poll(AcceptOutcome::Accepted), PollDecision::Spawn(2));
}

#[test]
fn interleaved_lifecycles_all_fit_and_table_empties() {
    let mut l = ControlLoop::new();
    let batch = vec![act(0, ClientConnect), act(1, ClientConnect), act(2, ClientConnect)];
    assert!(l.drain(&batch));
    let mut now = l.connected();
    now.sort();
    assert_eq!(now, vec![0, 1, 2]);
    let batch = vec![act(1, ClientDisconnect), act(0, ClientDisconnect)];
    assert!(l.drain(&batch));
    assert_eq!(l.connected(), vec![2]);
    assert!(l.drain(&vec![act(2, ClientDisconnect)]));
    assert!(l.connected().is_empty());
}

#[test]
fn out_of_order_actions_do_not_fit() {
    let mut l = ControlLoop::new();
    assert!(!l.on_action(act(4, ClientDisconnect)));
    assert!(l.connected().is_empty());
    assert!(l.on_action(act(4, ClientConnect)));
    assert!(!l.on_action(act(4, ClientConnect)));
    assert_eq!(l.connected(), vec![4]);
    assert!(l.on_action(act(4, ClientDisconnect)));
    assert!(!l.on_action(act(4, ClientDisconnect)));
    assert!(!l.drain(&vec![act(5, ClientConnect), act(6, ClientDisconnect)]));
    assert_eq!(l.connected(), vec![5]);
}

#[test]
fn empty_drain_changes_nothing() {
    let mut l = ControlLoop::new();
    assert!(l.drain(&Vec::new()));
    assert!(l.connected().is_empty());
}
