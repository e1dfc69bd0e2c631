use chat_server::handler::{Action, ActionType, ConnectionHandler, HandlerEvent, Phase};
use chat_server::line::split_lines;

fn connect(client: u64) -> Option<Action> {
    Some(Action { client, action_type: ActionType::ClientConnect })
}

fn disconnect(client: u64) -> Option<Action> {
    Some(Action { client, action_type: ActionType::ClientDisconnect })
}

fn data(bytes: &[u8]) -> HandlerEvent {
    HandlerEvent::Data(bytes.to_vec())
}

#[test]
fn ping_is_echoed_then_disconnect() {
    let mut h = ConnectionHandler::new(7);
    let r = h.handle(HandlerEvent::Start);
    assert_eq!(r.action, connect(7));
    assert!(r.echo.is_empty());
    let r = h.handle(data(b"ping\n"));
    assert_eq!(r.echo, vec![b"ping\n".to_vec()]);
    assert_eq!(r.action, None);
    let r = h.handle(HandlerEvent::EndOfStream);
    assert!(r.echo.is_empty());
    assert_eq!(r.action, disconnect(7));
    assert_eq!(h.phase(), Phase::Disconnected);
}

#[test]
fn two_clients_get_only_their_own_lines() {
    let mut a = ConnectionHandler::new(0);
    let mut b = ConnectionHandler::new(1);
    let mut actions = Vec::new();
    actions.push(a.handle(HandlerEvent::Start).action);
    actions.push(b.handle(HandlerEvent::Start).action);
    let rb = b.handle(data(b"from b\n"));
    let ra = a.handle(data(b"from a\n"));
    assert_eq!(ra.echo, vec![b"from a\n".to_vec()]);
    assert_eq!(rb.echo, vec![b"from b\n".to_vec()]);
    actions.push(b.handle(HandlerEvent::EndOfStream).action);
    actions.push(a.handle(HandlerEvent::EndOfStream).action);
    assert_eq!(actions, vec![connect(0), connect(1), disconnect(1), disconnect(0)]);
}

#[test]
fn silent_client_connects_and_disconnects() {
    let mut h = ConnectionHandler::new(3);
    let r1 = h.handle(HandlerEvent::Start);
    let r2 = h.handle(HandlerEvent::EndOfStream);
    assert_eq!(r1.action, connect(3));
    assert_eq!(r2.action, disconnect(3));
    assert!(r1.echo.is_empty() && r2.echo.is_empty());
}

#[test]
fn end_of_stream_twice_reports_once() {
    let mut h = ConnectionHandler::new(4);
    h.handle(HandlerEvent::Start);
    assert_eq!(h.handle(HandlerEvent::EndOfStream).action, disconnect(4));
    let again = h.handle(HandlerEvent::EndOfStream);
    assert_eq!(again.action, None);
    assert!(again.echo.is_empty());
    let late = h.handle(data(b"late\n"));
    assert_eq!(late.action, None);
    assert!(late.echo.is_empty());
    assert_eq!(h.handle(HandlerEvent::ReadFailed).action, None);
}

#[test]
fn chunks_are_echoed_line_by_line_in_order() {
    let mut h = ConnectionHandler::new(0);
    h.handle(HandlerEvent::Start);
    let mut echoed: Vec<u8> = Vec::new();
    let mut lines: Vec<Vec<u8>> = Vec::new();
    for chunk in [&b"he"[..], &b"llo\nwor"[..], &b"ld\n\nbye\n"[..]] {
        let r = h.handle(data(chunk));
        assert_eq!(r.action, None);
        for l in r.echo {
            echoed.extend_from_slice(&l);
            lines.push(l);
        }
    }
    assert_eq!(lines, vec![b"hello\n".to_vec(), b"world\n".to_vec(), b"\n".to_vec(), b"bye\n".to_vec()]);
    let r = h.handle(HandlerEvent::EndOfStream);
    assert!(r.echo.is_empty());
    assert_eq!(echoed, b"hello\nworld\n\nbye\n".to_vec());
}

#[test]
fn unfinished_line_is_echoed_at_end_of_stream() {
    let mut h = ConnectionHandler::new(9);
    h.handle(HandlerEvent::Start);
    let r = h.handle(data(b"one\ntwo"));
    assert_eq!(r.echo, vec![b"one\n".to_vec()]);
    let r = h.handle(HandlerEvent::EndOfStream);
    assert_eq!(r.echo, vec![b"two".to_vec()]);
    assert_eq!(r.action, disconnect(9));
}

#[test]
fn empty_read_ends_the_stream() {
    let mut h = ConnectionHandler::new(2);
    h.handle(HandlerEvent::Start);
    h.handle(data(b"rest"));
    let r = h.handle(data(b""));
    assert_eq!(r.echo, vec![b"rest".to_vec()]);
    assert_eq!(r.action, disconnect(2));
}

#[test]
fn read_error_disconnects_without_echo() {
    let mut h = ConnectionHandler::new(5);
    h.handle(HandlerEvent::Start);
    h.handle(data(b"half"));
    let r = h.handle(HandlerEvent::ReadFailed);
    assert!(r.echo.is_empty());
    assert_eq!(r.action, disconnect(5));
    assert_eq!(h.phase(), Phase::Disconnected);
}

#[test]
fn write_error_disconnects() {
    let mut h = ConnectionHandler::new(6);
    h.handle(HandlerEvent::Start);
    let r = h.handle(HandlerEvent::WriteFailed);
    assert!(r.echo.is_empty());
    assert_eq!(r.action, disconnect(6));
}

#[test]
fn events_before_start_are_ignored() {
    let mut h = ConnectionHandler::new(1);
    assert_eq!(h.phase(), Phase::Starting);
    let r = h.handle(data(b"early\n"));
    assert!(r.echo.is_empty());
    assert_eq!(r.action, None);
    assert_eq!(h.handle(HandlerEvent::EndOfStream).action, None);
    assert_eq!(h.handle(HandlerEvent::Start).action, connect(1));
    assert_eq!(h.handle(HandlerEvent::Start).action, None);
    assert_eq!(h.client(), 1);
    assert_eq!(h.phase(), Phase::Connected);
}

#[test]
fn split_lines_keeps_the_unterminated_rest() {
    let mut pending = b"ab".to_vec();
    let lines = split_lines(&mut pending, &b"c\nd\ne".to_vec());
    assert_eq!(lines, vec![b"abc\n".to_vec(), b"d\n".to_vec()]);
    assert_eq!(pending, b"e".to_vec());
    let lines = split_lines(&mut pending, &Vec::new());
    assert!(lines.is_empty());
    assert_eq!(pending, b"e".to_vec());
}
