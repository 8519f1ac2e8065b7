use p2p_rtc::websocket::{
    read_id_message, retain_listeners, socket_closed, split_command, SOCKET_OPEN, ConnectionHandshake, IdMessage, MessageGatherer,
    SocketListener, WebSocketCreationConfig, WebSocketHandler,
};

fn msg(c: &str, d: &str) -> (String, String) {
    (c.to_string(), d.to_string())
}

#[test]
fn gatherer_collects_in_order() {
    let mut g = MessageGatherer::new();
    assert!(g.listen(&mut (), "#A", "1"));
    assert!(g.listen(&mut (), "#B", "2"));
    assert_eq!(g.drain(), vec![msg("#A", "1"), msg("#B", "2")]);
    assert_eq!(g.drain(), vec![]);
}

#[test]
fn gatherer_stop_ends_listening() {
    let mut g = MessageGatherer::new();
    g.stop();
    assert!(!g.listen(&mut (), "#A", "1"));
    assert_eq!(g.pop_message(), Some(msg("#A", "1")));
    assert_eq!(g.pop_message(), None);
}

#[test]
fn gatherer_pop_until() {
    let mut g = MessageGatherer::new();
    g.listen(&mut (), "#A", "1");
    g.listen(&mut (), "#B", "2");
    g.listen(&mut (), "#C", "3");
    assert_eq!(g.pop_messages_until("#B"), Some(msg("#B", "2")));
    assert_eq!(g.pop_message(), Some(msg("#C", "3")));
    g.listen(&mut (), "#A", "4");
    assert_eq!(g.pop_messages_until("#Z"), None);
    assert_eq!(g.pop_message(), None);
    g.listen(&mut (), "#A", "5");
    g.clear_messages();
    assert_eq!(g.drain(), vec![]);
}

struct Counter {
    name: &'static str,
    seen: u32,
    limit: u32,
}

impl SocketListener<Vec<String>> for Counter {
    fn listen(&mut self, log: &mut Vec<String>, command: &str, data: &str) -> bool {
        log.push(format!("{}:{}{}", self.name, command, data));
        self.seen += 1;
        self.seen < self.limit
    }
}

#[test]
fn handler_removes_listeners_that_decline() {
    let mut log = Vec::new();
    let mut h = WebSocketHandler::new(1);
    h.push_listener(Counter { name: "a", seen: 0, limit: 1 });
    h.push_listener(Counter { name: "b", seen: 0, limit: 3 });
    h.on_received(&mut log, "#M", "1");
    h.on_received(&mut log, "#M", "2");
    h.push_listener(Counter { name: "c", seen: 0, limit: 9 });
    h.on_received(&mut log, "#M", "3");
    h.on_received(&mut log, "#M", "4");
    assert_eq!(log, vec!["b:#M1", "a:#M1", "b:#M2", "c:#M3", "b:#M3", "c:#M4"]);
}

#[test]
fn queued_listener_hears_from_next_message() {
    let mut log = Vec::new();
    let mut h = WebSocketHandler::new(2);
    h.push_listener(Counter { name: "a", seen: 0, limit: 9 });
    h.on_received(&mut log, "#M", "1");
    h.push_listener(Counter { name: "b", seen: 0, limit: 9 });
    assert_eq!(log, vec!["a:#M1"]);
    h.drain_queue();
    h.on_received(&mut log, "#M", "2");
    assert_eq!(log, vec!["a:#M1", "b:#M2", "a:#M2"]);
    assert_eq!(h.id(), 2);
}

#[test]
fn gatherers_in_handler_leave_the_context() {
    let mut h: WebSocketHandler<MessageGatherer> = WebSocketHandler::new(7);
    h.push_listener(MessageGatherer::new());
    let mut context = 5u8;
    h.on_received(&mut context, "#X", "a");
    assert_eq!(context, 5);
    assert_eq!(h.id(), 7);
}

#[test]
fn closed_sockets() {
    assert!(!socket_closed(SOCKET_OPEN));
    assert!(socket_closed(0));
    assert!(socket_closed(2));
    assert!(socket_closed(3));
}

#[test]
fn retain_follows_flags() {
    let mut v = vec![1, 2, 3, 4];
    retain_listeners(&mut v, &vec![true, false, false, true]);
    assert_eq!(v, vec![1, 4]);
    let mut w: Vec<u8> = vec![];
    retain_listeners(&mut w, &vec![]);
    assert!(w.is_empty());
}

#[test]
fn split_command_parts() {
    assert_eq!(split_command("#OFFER 1 2 {\"sdp\": 1}"), ("#OFFER", "1 2 {\"sdp\": 1}"));
    assert_eq!(split_command("#PING"), ("#PING", ""));
}

#[test]
fn id_messages() {
    assert!(matches!(read_id_message("#ID 17"), IdMessage::Id(17)));
    assert!(matches!(read_id_message("#ID 17 extra"), IdMessage::Id(17)));
    assert!(matches!(read_id_message("#ID x"), IdMessage::Malformed));
    assert!(matches!(read_id_message("#ID"), IdMessage::Malformed));
    assert!(matches!(read_id_message("#IDS 3"), IdMessage::Other));
    assert!(matches!(read_id_message("hello"), IdMessage::Other));
}

#[test]
fn handshake_flow() {
    let mut h = ConnectionHandshake::new();
    assert_eq!(h.poll(), Ok(None));
    assert!(!h.on_message("#HELLO"));
    assert_eq!(h.poll(), Ok(None));
    assert!(!h.on_message("#ID 99"));
    assert_eq!(h.poll(), Ok(Some(99)));
    let mut bad = ConnectionHandshake::new();
    assert!(bad.on_message("#ID nope"));
    assert_eq!(bad.poll(), Err(()));
    let mut err = ConnectionHandshake::new();
    err.on_message("#ID 3");
    err.on_error();
    assert_eq!(err.poll(), Err(()));
}

#[test]
fn retries_are_counted() {
    let cfg = WebSocketCreationConfig { url: "ws://x", retry_count: 3, delay_per_retry: 0, timeout: 100 };
    assert_eq!(cfg.next_attempt(0, true), Some(1));
    assert_eq!(cfg.next_attempt(1, true), Some(2));
    assert_eq!(cfg.next_attempt(2, true), None);
    assert_eq!(cfg.next_attempt(2, false), Some(2));
    let none = WebSocketCreationConfig { url: "ws://x", retry_count: 0, delay_per_retry: 0, timeout: 100 };
    assert_eq!(none.next_attempt(0, true), None);
    assert_eq!(none.next_attempt(0, false), Some(0));
}
